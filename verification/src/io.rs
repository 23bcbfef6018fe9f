//! Bounded-memory stream adapters for FLOE messages.
//!
//! [`EncryptReader`] and [`EncryptWriter`] encrypt a stream, and
//! [`DecryptReader`] decrypts one. Each holds the stream that it wraps and
//! decides what to do with it; it never reads or writes the stream itself. An
//! operation that needs input or output says so in the step that it returns:
//! the caller moves the bytes, reports what came of it, and calls the operation
//! again.
//!
//! [`DecryptReader`] by default requires the message to occupy the entire
//! underlying stream; use its `*_frame` finalizers when another frame follows.

mod decrypt_reader;
pub mod decrypt_runs;
mod encrypt_reader;
pub mod encrypt_runs;
mod encrypt_writer;
pub mod write_runs;

pub use crate::wire::{complete_header, ReadProgress};
pub use decrypt_reader::{DecryptReader, DrainStep, SegmentFetch};
pub use decrypt_runs::DecryptReaderEvent;
pub use encrypt_reader::{EncryptReader, PlaintextFetch};
pub use encrypt_runs::EncryptReaderEvent;
pub use encrypt_writer::{EncryptWriter, FinishStep, Pending, WriteStep};
pub use write_runs::EncryptWriterEvent;

use crate::error::{append_decimal, decimal, Error};
use vstd::prelude::*;

verus! {

/// Whether a stream can still be used.
#[derive(Clone, Copy, Debug, PartialEq, Eq, Structural)]
pub enum StreamStatus {
    /// The message is not complete.
    Open,
    /// The message is complete.
    Finished,
    /// An earlier error has left the stream unusable.
    Failed,
}

/// What a read of a stream came to.
#[derive(Clone, Copy, Debug, PartialEq, Eq, Structural)]
pub enum ReadStep {
    /// This many bytes were read.
    Served(usize),
    /// The wrapped stream must be read before anything can be served.
    Fetch,
}

/// The lesser of two numbers.
pub open spec fn lesser(left: int, right: int) -> int {
    if left < right {
        left
    } else {
        right
    }
}

/// Why a stream refuses an operation.
#[derive(Clone, Copy, Debug, PartialEq, Eq, Structural)]
pub enum StreamError {
    /// An earlier error has left the stream unusable.
    Poisoned,
    /// The message is complete, so nothing can be added to it.
    AlreadyFinished,
    /// The message is followed by more data.
    TrailingData,
    /// Encrypting failed.
    Encryption(Error),
    /// Decrypting failed.
    Decryption(Error),
    /// The operation was given something it cannot work with.
    Input(Error),
    /// A message has no segment at this position.
    SegmentOutOfRange { position: u64, count: u64 },
    /// A message has no such range of plaintext.
    RangeOutOfBounds { start: u64, end: u64, length: u64 },
    /// A plaintext position cannot be represented.
    SeekOutOfRange,
    /// The source ends before the position at which the message starts.
    EndsBeforeStart,
}

/// The broad class that a [`StreamError`] falls into.
#[derive(Clone, Copy, Debug, PartialEq, Eq, Structural)]
pub enum StreamErrorKind {
    /// An error that belongs to no other class.
    Other,
    /// Output was offered to a stream that takes no more.
    BrokenPipe,
    /// The wrapped stream does not hold a valid message.
    InvalidData,
    /// The caller passed something invalid.
    InvalidInput,
}

impl StreamError {
    /// The message that describes this error.
    pub open spec fn text(self) -> Seq<char> {
        match self {
            StreamError::Poisoned => "FLOE stream is poisoned after an earlier error"@,
            StreamError::AlreadyFinished => "FLOE encrypting writer is already finished"@,
            StreamError::TrailingData => "FLOE ciphertext has data after its final segment"@,
            StreamError::Encryption(error) => error.text(),
            StreamError::Decryption(error) => error.text(),
            StreamError::Input(error) => error.text(),
            StreamError::SegmentOutOfRange { position, count } => "FLOE segment position "@
                + decimal(position as nat) + " is outside 0.."@ + decimal(count as nat),
            StreamError::RangeOutOfBounds { start, end, length } => "plaintext range "@ + decimal(
                start as nat,
            ) + ".."@ + decimal(end as nat) + " is outside 0.."@ + decimal(length as nat),
            StreamError::SeekOutOfRange =>
                "seek outside the representable plaintext position range"@,
            StreamError::EndsBeforeStart => "FLOE ciphertext ends before its starting position"@,
        }
    }

    /// Returns the message that describes this error.
    pub fn to_string(&self) -> (text: String)
        ensures
            text@ == self.text(),
    {
        let mut text = String::new();
        match *self {
            StreamError::Poisoned => text.append("FLOE stream is poisoned after an earlier error"),
            StreamError::AlreadyFinished => {
                text.append("FLOE encrypting writer is already finished");
            },
            StreamError::TrailingData => {
                text.append("FLOE ciphertext has data after its final segment");
            },
            StreamError::Encryption(error) | StreamError::Decryption(error) | StreamError::Input(
                error,
            ) => text.append(error.to_string().as_str()),
            StreamError::SegmentOutOfRange { position, count } => {
                text.append("FLOE segment position ");
                append_decimal(&mut text, position);
                text.append(" is outside 0..");
                append_decimal(&mut text, count);
            },
            StreamError::RangeOutOfBounds { start, end, length } => {
                text.append("plaintext range ");
                append_decimal(&mut text, start);
                text.append("..");
                append_decimal(&mut text, end);
                text.append(" is outside 0..");
                append_decimal(&mut text, length);
            },
            StreamError::SeekOutOfRange => {
                text.append("seek outside the representable plaintext position range");
            },
            StreamError::EndsBeforeStart => {
                text.append("FLOE ciphertext ends before its starting position");
            },
        }
        assert(text@ =~= self.text());
        text
    }

    /// The broad class that this error falls into.
    pub open spec fn spec_kind(self) -> StreamErrorKind {
        match self {
            StreamError::Poisoned | StreamError::Encryption(_) => StreamErrorKind::Other,
            StreamError::AlreadyFinished => StreamErrorKind::BrokenPipe,
            StreamError::TrailingData | StreamError::Decryption(_)
            | StreamError::EndsBeforeStart => StreamErrorKind::InvalidData,
            StreamError::Input(_) | StreamError::SegmentOutOfRange { .. }
            | StreamError::RangeOutOfBounds { .. }
            | StreamError::SeekOutOfRange => StreamErrorKind::InvalidInput,
        }
    }

    /// Messages name their numbers in full, whatever they are, and an error that
    /// stands for another says what that one says.
    pub proof fn lemma_messages(position: u64, end: u64, count: u64, error: Error)
        ensures
            (StreamError::SegmentOutOfRange { position, count }).text()
                == "FLOE segment position "@ + decimal(position as nat) + " is outside 0.."@
                + decimal(count as nat),
            (StreamError::RangeOutOfBounds { start: position, end, length: count }).text()
                == "plaintext range "@ + decimal(position as nat) + ".."@ + decimal(end as nat)
                + " is outside 0.."@ + decimal(count as nat),
            StreamError::Encryption(error).text() == error.text(),
            StreamError::Decryption(error).text() == error.text(),
            StreamError::Input(error).text() == error.text(),
    {
    }

    /// Every error falls into one class: what the wrapped stream holds is to
    /// blame for invalid data, the caller for invalid input, and a finished
    /// writer for a broken pipe. Encrypting and a poisoned stream fall into none
    /// of these.
    pub proof fn lemma_kinds(self)
        ensures
            self.kind() is InvalidData <==> self is TrailingData || self is Decryption || self
                is EndsBeforeStart,
            self.kind() is InvalidInput <==> self is Input || self is SegmentOutOfRange || self
                is RangeOutOfBounds || self is SeekOutOfRange,
            self.kind() is BrokenPipe <==> self is AlreadyFinished,
            self.kind() is Other <==> self is Poisoned || self is Encryption,
    {
    }

    /// Returns the broad class that this error falls into.
    #[verifier::when_used_as_spec(spec_kind)]
    pub fn kind(self) -> (kind: StreamErrorKind)
        ensures
            kind == self.kind(),
    {
        match self {
            StreamError::Poisoned | StreamError::Encryption(_) => StreamErrorKind::Other,
            StreamError::AlreadyFinished => StreamErrorKind::BrokenPipe,
            StreamError::TrailingData | StreamError::Decryption(_)
            | StreamError::EndsBeforeStart => StreamErrorKind::InvalidData,
            StreamError::Input(_) | StreamError::SegmentOutOfRange { .. }
            | StreamError::RangeOutOfBounds { .. }
            | StreamError::SeekOutOfRange => StreamErrorKind::InvalidInput,
        }
    }

    /// Returns the FLOE error behind this error, where there is one.
    pub fn source(self) -> (source: Option<Error>)
        ensures
            source == match self {
                StreamError::Encryption(error) => Some(error),
                StreamError::Decryption(error) => Some(error),
                StreamError::Input(error) => Some(error),
                _ => None,
            },
    {
        match self {
            StreamError::Encryption(error) | StreamError::Decryption(error) | StreamError::Input(
                error,
            ) => Some(error),
            _ => None,
        }
    }
}

/// Error returned when consuming stream-adapter finalization cannot complete.
///
/// The wrapped stream remains recoverable with [`Self::into_inner`], although
/// its position or contents may reflect a partial operation.
pub struct FinishError<W, E> {
    inner: W,
    error: E,
}

impl<W, E> FinishError<W, E> {
    pub closed spec fn spec_error(&self) -> E {
        self.error
    }

    /// The wrapped stream.
    pub closed spec fn kept(&self) -> W {
        self.inner
    }

    /// Returns the error that prevented finalization.
    pub fn error(&self) -> (error: &E)
        ensures
            *error == self.spec_error(),
    {
        &self.error
    }

    /// Recovers the wrapped stream.
    pub fn into_inner(self) -> (inner: W)
        ensures
            inner == self.kept(),
    {
        self.inner
    }

    /// Separates the finalization error and the wrapped stream.
    pub fn into_parts(self) -> (parts: (E, W))
        ensures
            parts.0 == self.spec_error(),
            parts.1 == self.kept(),
    {
        (self.error, self.inner)
    }

    /// The outcome of consuming a stream: the wrapped stream comes back either
    /// way.
    pub open spec fn wrapped(
        result: Result<(), E>,
        inner: W,
        outcome: Result<W, FinishError<W, E>>,
    ) -> bool {
        match result {
            Ok(_) => outcome is Ok && outcome->Ok_0 == inner,
            Err(error) => outcome is Err && outcome->Err_0.spec_error() == error
                && outcome->Err_0.kept() == inner,
        }
    }

    pub(crate) fn wrap(result: Result<(), E>, inner: W) -> (outcome: Result<W, FinishError<W, E>>)
        ensures
            Self::wrapped(result, inner, outcome),
    {
        match result {
            Ok(()) => Ok(inner),
            Err(error) => Err(Self { inner, error }),
        }
    }
}

} // verus!
