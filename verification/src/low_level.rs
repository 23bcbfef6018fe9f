//! Framing, backend, and raw random-access primitives for experts. These
//! APIs expose more of the FLOE state machine and require callers to preserve
//! message-level invariants (and to know those invariants exist).
//!
//! In particular, callers processing segments themselves must uphold the
//! obligations that higher-level APIs abstract away:
//!
//!   - Encrypt each position at most once
//!   - Produce exactly one final segment
//!   - Leave no gaps
//!   - Never process positions beyond the final segment.
//!
//! Prefer the higher-level APIs unless manual segment processing or parallel
//! access is required.

pub use crate::backends::ProviderRng;
pub use crate::buffer::{BufferState, SegmentBuffer};
pub use crate::counter::SegmentCounter;
pub use crate::layout::{MessageLayout, SegmentLayout, Segments};
pub use crate::parameters::{
    AEAD_IV_LENGTH, AEAD_MAX_SEGMENTS, AEAD_TAG_LENGTH, ENCODED_PARAMETERS_LENGTH, FLOE_IV_LENGTH,
    HEADER_LENGTH, HEADER_TAG_LENGTH, ROTATION_INTERVAL, SEGMENT_OVERHEAD, SEGMENT_PAYLOAD_OFFSET,
};
pub use crate::state::{
    start_decryption, start_decryption_inferred, start_encryption, start_encryption_with_iv,
    DecryptionState, EncryptionState, SharedDecryptionContext, SharedEncryptionContext,
    NONCE_BATCH_LENGTH,
};
