//! Fast Lightweight Online Encryption (FLOE): authenticated encryption for
//! large files and byte streams, with bounded memory, random access, and a
//! choice of cryptography providers.
//!
//! [`encrypt`] and [`decrypt`] process messages that fit in memory, [`io`]
//! processes streams, [`random_access`] reads parts of a message, [`online`]
//! processes segments in order, and [`low_level`] processes segments in any
//! order.
//!
//! The contracts speak of the wire format in [`model`], of the outcome of
//! segment operations in [`state`], of complete messages in [`message`], and of
//! the cryptographic functions in [`primitives`].
//!
//! The laws of the library stand on their own: [`wire_format`] writes the format
//! out byte by byte, [`outcomes`] says what segment operations leave behind,
//! [`integrity`] speaks of damaged messages, and [`io::write_runs`],
//! [`io::encrypt_runs`], [`io::decrypt_runs`], [`online::runs`], and
//! [`random_access::runs`] say what any sequence of operations comes to.

mod backends;
mod buffer;
pub mod bytes;
mod counter;
pub mod error;
mod header;
pub mod integrity;
pub mod io;
mod key;
pub mod layout;
pub mod low_level;
pub mod message;
pub mod model;
pub mod online;
pub mod outcomes;
mod parameters;
pub mod primitives;
mod provider;
pub mod random_access;
mod secret;
pub mod state;
pub mod wire;
pub mod wire_format;

pub use error::{Error, LengthRequirement};
pub use header::Header;
pub use key::Key;
pub use layout::SegmentFraming;
pub use message::{decrypt, decrypt_with_parameters, encrypt};
pub use parameters::{Parameters, SegmentKind, SEGMENT_PREFIX_LENGTH};
pub use provider::Provider;
