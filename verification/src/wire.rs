use crate::error::{Error, LengthRequirement};
use crate::header::Header;
use crate::parameters::HEADER_LENGTH;
use vstd::prelude::*;

verus! {

/// Splits a ciphertext into its header and its body.
pub(crate) fn split_header(ciphertext: &[u8]) -> (result: Result<(Header, &[u8]), Error>)
    ensures
        match result {
            Ok((header, body)) => ciphertext@.len() >= HEADER_LENGTH && header@ == ciphertext@.take(
                HEADER_LENGTH as int,
            ) && body@ == ciphertext@.skip(HEADER_LENGTH as int),
            Err(error) => ciphertext@.len() < HEADER_LENGTH && error
                == (Error::InvalidHeaderLength { actual: ciphertext@.len() as usize }),
        },
{
    if ciphertext.len() < HEADER_LENGTH {
        return Err(Error::InvalidHeaderLength { actual: ciphertext.len() });
    }
    let (header, body) = ciphertext.split_at(HEADER_LENGTH);
    let header = Header::try_from(header)?;
    Ok((header, body))
}

/// How much of a required number of bytes has arrived from a source that may
/// hand them out in parts, and end early.
#[derive(Clone, Copy, Debug, PartialEq, Eq, Structural)]
pub struct ReadProgress {
    required: usize,
    filled: usize,
    ended: bool,
}

impl ReadProgress {
    pub closed spec fn spec_required(self) -> usize {
        self.required
    }

    pub closed spec fn spec_filled(self) -> usize {
        self.filled
    }

    /// The source ended before the required number of bytes had arrived.
    pub closed spec fn ended(self) -> bool {
        self.ended
    }

    /// No more bytes have arrived than are required.
    #[verifier::type_invariant]
    pub open spec fn wf(self) -> bool {
        self.filled() <= self.required()
    }

    /// Nothing more is to be read.
    pub open spec fn done(self) -> bool {
        self.ended() || self.filled() == self.required()
    }

    /// Starts to read `required` bytes, of which the first `filled` are there.
    pub fn new(required: usize, filled: usize) -> (progress: Self)
        requires
            filled <= required,
        ensures
            progress.wf(),
            progress.required() == required,
            progress.filled() == filled,
            !progress.ended(),
    {
        Self { required, filled, ended: false }
    }

    /// Returns how many bytes are required.
    #[verifier::when_used_as_spec(spec_required)]
    pub fn required(self) -> (required: usize)
        ensures
            required == self.required(),
    {
        self.required
    }

    /// Returns how many bytes have arrived.
    #[verifier::when_used_as_spec(spec_filled)]
    pub fn filled(self) -> (filled: usize)
        ensures
            filled == self.filled(),
            self.wf(),
    {
        proof {
            use_type_invariant(&self);
        }
        self.filled
    }

    /// Returns whether everything required has arrived, or the source has
    /// ended.
    pub fn is_done(self) -> (done: bool)
        ensures
            done == self.done(),
    {
        self.ended || self.filled == self.required
    }

    /// Records that the source handed out `read` bytes. None means that it has
    /// ended.
    pub fn advance(&mut self, read: usize)
        requires
            read <= old(self).required() - old(self).filled(),
        ensures
            final(self).wf(),
            final(self).required() == old(self).required(),
            final(self).filled() == old(self).filled() + read,
            final(self).ended() == (old(self).ended() || read == 0),
    {
        proof {
            use_type_invariant(&*self);
        }
        if read == 0 {
            self.ended = true;
        } else {
            self.filled = self.filled + read;
        }
    }
}

/// Takes the bytes that were read for a header, of which the first `actual`
/// have arrived.
///
/// # Errors
///
/// Returns [`Error::InvalidHeaderLength`] unless the header is complete.
pub fn complete_header(bytes: [u8; HEADER_LENGTH], actual: usize) -> (result: Result<Header, Error>)
    ensures
        match result {
            Ok(header) => actual == HEADER_LENGTH && header@ == bytes@,
            Err(error) => actual != HEADER_LENGTH && error == (Error::InvalidHeaderLength {
                actual,
            }),
        },
{
    if actual == HEADER_LENGTH {
        Ok(Header::from(bytes))
    } else {
        Err(Error::InvalidHeaderLength { actual })
    }
}

/// The error, if any, of a segment of `expected` bytes of which `actual` have
/// arrived.
pub open spec fn segment_read_error(actual: usize, expected: usize) -> Option<Error> {
    if actual == expected {
        None
    } else {
        Some(
            Error::InvalidCiphertextLength {
                actual,
                required: LengthRequirement::Exactly(expected),
            },
        )
    }
}

pub(crate) fn complete_segment(actual: usize, expected: usize) -> (result: Result<(), Error>)
    ensures
        match result {
            Ok(_) => segment_read_error(actual, expected) is None,
            Err(error) => segment_read_error(actual, expected) == Some(error),
        },
{
    if actual == expected {
        Ok(())
    } else {
        Err(
            Error::InvalidCiphertextLength {
                actual,
                required: LengthRequirement::Exactly(expected),
            },
        )
    }
}

} // verus!
