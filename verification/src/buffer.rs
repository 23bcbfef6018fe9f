use crate::bytes::range_mut;
use crate::error::{Error, LengthRequirement};
use crate::parameters::{
    Parameters, SEGMENT_OVERHEAD, SEGMENT_PAYLOAD_OFFSET, SEGMENT_PREFIX_LENGTH,
};
use crate::secret::{zeroize, zeroize_vec};
use vstd::prelude::*;

verus! {

/// What a [`SegmentBuffer`] has been prepared for.
#[derive(Clone, Copy, Debug, PartialEq, Eq, Structural)]
pub enum BufferState {
    /// The buffer holds nothing.
    Empty,
    /// The buffer holds this many plaintext bytes.
    Plaintext { length: usize },
    /// The buffer holds a ciphertext segment of this many bytes.
    Ciphertext { length: usize },
}

/// Reusable storage for allocation-free segment encryption and decryption.
///
/// This type owns the framing offset arithmetic required by FLOE. Callers
/// prepare either a plaintext payload or an encrypted segment, pass the buffer
/// to an in-place operation, and then retrieve the authenticated result.
pub struct SegmentBuffer {
    parameters: Parameters,
    bytes: Vec<u8>,
    state: BufferState,
}

impl SegmentBuffer {
    pub closed spec fn spec_parameters(&self) -> Parameters {
        self.parameters
    }

    /// The complete storage.
    pub closed spec fn raw(&self) -> Seq<u8> {
        self.bytes@
    }

    /// What the storage is prepared for.
    pub closed spec fn state(&self) -> BufferState {
        self.state
    }

    /// The storage has the size of one segment, and what it holds fits.
    pub open spec fn wf(&self) -> bool {
        &&& self.parameters().wf()
        &&& self.raw().len() == self.parameters().segment_length()
        &&& match self.state() {
            BufferState::Empty => true,
            BufferState::Plaintext { length } => length <= self.parameters().payload_length(),
            BufferState::Ciphertext { length } => SEGMENT_OVERHEAD <= length
                <= self.parameters().segment_length(),
        }
    }

    /// The plaintext that the buffer holds, if it holds one.
    pub open spec fn plaintext_view(&self) -> Option<Seq<u8>> {
        match self.state() {
            BufferState::Plaintext { length } => Some(
                self.raw().subrange(
                    SEGMENT_PAYLOAD_OFFSET as int,
                    SEGMENT_PAYLOAD_OFFSET + length,
                ),
            ),
            _ => None,
        }
    }

    /// The ciphertext segment that the buffer holds, if it holds one.
    pub open spec fn ciphertext_view(&self) -> Option<Seq<u8>> {
        match self.state() {
            BufferState::Ciphertext { length } => Some(self.raw().take(length as int)),
            _ => None,
        }
    }

    /// Allocates one reusable encrypted-segment-sized buffer.
    pub fn new(parameters: Parameters) -> (buffer: Self)
        ensures
            buffer.wf(),
            buffer.parameters() == parameters,
            buffer.state() is Empty,
            buffer.raw() == Seq::new(parameters.segment_length() as nat, |i: int| 0u8),
    {
        Self {
            parameters,
            bytes: vec![0u8; parameters.ciphertext_segment_length()],
            state: BufferState::Empty,
        }
    }

    /// Returns this buffer's parameter set.
    #[verifier::when_used_as_spec(spec_parameters)]
    pub fn parameters(&self) -> (parameters: Parameters)
        ensures
            parameters == self.parameters(),
    {
        self.parameters
    }

    /// Returns the complete reusable storage capacity.
    pub fn capacity(&self) -> (capacity: usize)
        requires
            self.wf(),
        ensures
            capacity == self.parameters().segment_length(),
    {
        self.bytes.len()
    }

    /// Prepares a plaintext payload and returns a slice ready for the
    /// caller to write into it.
    ///
    /// # Errors
    ///
    /// Returns [`Error::InvalidPlaintextLength`] when `length` exceeds one
    /// segment's payload capacity. A non-final operation will additionally
    /// require the exact full payload length.
    pub fn prepare_plaintext(&mut self, length: usize) -> (result: Result<&mut [u8], Error>)
        requires
            old(self).wf(),
        ensures
            final(self).parameters() == old(self).parameters(),
            match result {
                Ok(slice) => {
                    &&& length <= old(self).parameters().payload_length()
                    &&& slice@ == old(self).raw().subrange(
                        SEGMENT_PAYLOAD_OFFSET as int,
                        SEGMENT_PAYLOAD_OFFSET + length,
                    )
                    &&& final(self).state() == (BufferState::Plaintext { length })
                    &&& final(slice)@.len() == length ==> final(self).wf()
                        && final(self).plaintext_view() == Some(final(slice)@)
                    &&& final(self).raw() == old(self).raw().take(SEGMENT_PAYLOAD_OFFSET as int)
                        + final(slice)@ + old(self).raw().skip(SEGMENT_PAYLOAD_OFFSET + length)
                },
                Err(error) => {
                    &&& length > old(self).parameters().payload_length()
                    &&& error == (Error::InvalidPlaintextLength {
                        actual: length,
                        required: LengthRequirement::AtMost(
                            old(self).parameters().payload_length() as usize,
                        ),
                    })
                    &&& *final(self) == *old(self)
                },
            },
    {
        let maximum = self.parameters.plaintext_segment_length();
        if length > maximum {
            return Err(
                Error::InvalidPlaintextLength {
                    actual: length,
                    required: LengthRequirement::AtMost(maximum),
                },
            );
        }
        self.state = BufferState::Plaintext { length };
        let slice = range_mut(
            self.bytes.as_mut_slice(),
            SEGMENT_PAYLOAD_OFFSET,
            SEGMENT_PAYLOAD_OFFSET + length,
        );
        Ok(slice)
    }

    /// Prepares storage for a ciphertext segment of `length` bytes
    /// and returns a slice ready for the caller to write into it.
    ///
    /// # Errors
    ///
    /// Returns [`Error::InvalidCiphertextLength`] when `length` cannot
    /// represent a segment for this parameter set.
    pub fn prepare_ciphertext(&mut self, length: usize) -> (result: Result<&mut [u8], Error>)
        requires
            old(self).wf(),
        ensures
            final(self).parameters() == old(self).parameters(),
            match result {
                Ok(slice) => {
                    &&& old(self).parameters().segment_length_error(length as int) is None
                    &&& slice@ == old(self).raw().take(length as int)
                    &&& final(self).state() == (BufferState::Ciphertext { length })
                    &&& final(slice)@.len() == length ==> final(self).wf()
                        && final(self).ciphertext_view() == Some(final(slice)@)
                    &&& final(self).raw() == final(slice)@ + old(self).raw().skip(length as int)
                },
                Err(error) => {
                    &&& old(self).parameters().segment_length_error(length as int) == Some(error)
                    &&& *final(self) == *old(self)
                },
            },
    {
        self.parameters.validate_ciphertext_segment_length(length)?;
        self.state = BufferState::Ciphertext { length };
        let slice = range_mut(self.bytes.as_mut_slice(), 0, length);
        Ok(slice)
    }

    /// Returns a slice positioned at the prepared or authenticated plaintext.
    ///
    /// # Errors
    ///
    /// Returns [`Error::InvalidBufferState`] unless the buffer currently holds
    /// plaintext.
    pub fn plaintext(&self) -> (result: Result<&[u8], Error>)
        requires
            self.wf(),
        ensures
            match result {
                Ok(slice) => self.plaintext_view() == Some(slice@),
                Err(error) => self.plaintext_view() is None && error == Error::InvalidBufferState,
            },
    {
        match self.state {
            BufferState::Plaintext { length } => Ok(
                &self.bytes.as_slice()[SEGMENT_PAYLOAD_OFFSET..SEGMENT_PAYLOAD_OFFSET + length],
            ),
            BufferState::Empty | BufferState::Ciphertext { .. } => Err(Error::InvalidBufferState),
        }
    }

    pub(crate) fn plaintext_mut(&mut self) -> (result: Result<&mut [u8], Error>)
        requires
            old(self).wf(),
        ensures
            final(self).parameters() == old(self).parameters(),
            final(self).state() == old(self).state(),
            match result {
                Ok(slice) => {
                    &&& old(self).plaintext_view() == Some(slice@)
                    &&& final(slice)@.len() == slice@.len() ==> final(self).wf()
                        && final(self).plaintext_view() == Some(final(slice)@)
                    &&& final(self).raw() == old(self).raw().take(SEGMENT_PAYLOAD_OFFSET as int)
                        + final(slice)@ + old(self).raw().skip(SEGMENT_PAYLOAD_OFFSET + slice@.len())
                },
                Err(error) => old(self).plaintext_view() is None && error
                    == Error::InvalidBufferState && *final(self) == *old(self),
            },
    {
        match self.state {
            BufferState::Plaintext { length } => {
                let slice = range_mut(
                    self.bytes.as_mut_slice(),
                    SEGMENT_PAYLOAD_OFFSET,
                    SEGMENT_PAYLOAD_OFFSET + length,
                );
                Ok(slice)
            },
            BufferState::Empty | BufferState::Ciphertext { .. } => Err(Error::InvalidBufferState),
        }
    }

    /// Borrows the plaintext that the buffer holds, from `start` on.
    pub(crate) fn plaintext_from(&mut self, start: usize) -> (rest: &mut [u8])
        requires
            old(self).wf(),
            old(self).plaintext_view() is Some,
            start <= old(self).plaintext_view()->0.len(),
        ensures
            rest@ == old(self).plaintext_view()->0.skip(start as int),
            final(self).parameters() == old(self).parameters(),
            final(self).state() == old(self).state(),
            final(rest)@.len() == rest@.len() ==> {
                &&& final(self).wf()
                &&& final(self).plaintext_view()->0.take(start as int) ==
                    old(self).plaintext_view()->0.take(start as int)
                &&& final(self).plaintext_view()->0.skip(start as int) == final(rest)@
            },
    {
        let length: usize = match self.state {
            BufferState::Plaintext { length } => length,
            BufferState::Empty | BufferState::Ciphertext { .. } => start,
        };
        range_mut(
            self.bytes.as_mut_slice(),
            SEGMENT_PAYLOAD_OFFSET + start,
            SEGMENT_PAYLOAD_OFFSET + length,
        )
    }

    /// Borrows the ciphertext segment that the buffer holds, from `start` on.
    pub(crate) fn ciphertext_from(&mut self, start: usize) -> (rest: &mut [u8])
        requires
            old(self).wf(),
            old(self).ciphertext_view() is Some,
            start <= old(self).ciphertext_view()->0.len(),
        ensures
            rest@ == old(self).ciphertext_view()->0.skip(start as int),
            final(self).parameters() == old(self).parameters(),
            final(self).state() == old(self).state(),
            final(rest)@.len() == rest@.len() ==> {
                &&& final(self).wf()
                &&& final(self).ciphertext_view()->0.take(start as int) ==
                    old(self).ciphertext_view()->0.take(start as int)
                &&& final(self).ciphertext_view()->0.skip(start as int) == final(rest)@
                &&& start >= SEGMENT_PREFIX_LENGTH ==>
                    final(self).ciphertext_view()->0.take(SEGMENT_PREFIX_LENGTH as int) ==
                    old(self).ciphertext_view()->0.take(SEGMENT_PREFIX_LENGTH as int)
            },
    {
        let length: usize = match self.state {
            BufferState::Ciphertext { length } => length,
            BufferState::Empty | BufferState::Plaintext { .. } => start,
        };
        range_mut(self.bytes.as_mut_slice(), start, length)
    }

    /// Returns a slice positioned at the prepared or generated ciphertext.
    ///
    /// # Errors
    ///
    /// Returns [`Error::InvalidBufferState`] unless the buffer currently holds
    /// a ciphertext segment.
    pub fn ciphertext(&self) -> (result: Result<&[u8], Error>)
        requires
            self.wf(),
        ensures
            match result {
                Ok(slice) => self.ciphertext_view() == Some(slice@),
                Err(error) => self.ciphertext_view() is None && error == Error::InvalidBufferState,
            },
    {
        match self.state {
            BufferState::Ciphertext { length } => {
                let slice = &self.bytes.as_slice()[0..length];
                assert(slice@ =~= self.raw().take(length as int));
                Ok(slice)
            },
            BufferState::Empty | BufferState::Plaintext { .. } => Err(Error::InvalidBufferState),
        }
    }

    /// Clears the logical contents and zeroizes the reusable storage.
    pub fn clear(&mut self)
        requires
            old(self).wf(),
        ensures
            final(self).wf(),
            final(self).parameters() == old(self).parameters(),
            final(self).state() is Empty,
            forall|i: int| 0 <= i < final(self).raw().len() ==> final(self).raw()[i] == 0,
    {
        zeroize(self.bytes.as_mut_slice());
        self.state = BufferState::Empty;
    }

    /// Appends as much of `input` as the segment takes to the plaintext that
    /// the buffer holds, and returns how many bytes it took. A buffer that
    /// holds no plaintext starts with an empty one.
    pub fn extend_plaintext(&mut self, input: &[u8]) -> (copied: usize)
        requires
            old(self).wf(),
        ensures
            final(self).wf(),
            final(self).parameters() == old(self).parameters(),
            ({
                let held = match old(self).plaintext_view() {
                    Some(plaintext) => plaintext,
                    None => Seq::empty(),
                };
                let space = old(self).parameters().payload_length() - held.len();
                &&& copied == if input@.len() < space {
                    input@.len() as int
                } else {
                    space
                }
                &&& final(self).plaintext_view() == Some(held + input@.take(copied as int))
                &&& final(self).raw() == old(self).raw().take(SEGMENT_PAYLOAD_OFFSET + held.len())
                    + input@.take(copied as int) + old(self).raw().skip(
                    SEGMENT_PAYLOAD_OFFSET + held.len() + copied,
                )
            }),
    {
        let capacity = self.parameters.plaintext_segment_length();
        let held: usize = match self.state {
            BufferState::Plaintext { length } => length,
            BufferState::Empty | BufferState::Ciphertext { .. } => 0,
        };
        let space: usize = capacity - held;
        let copied: usize = if input.len() < space {
            input.len()
        } else {
            space
        };
        let start: usize = SEGMENT_PAYLOAD_OFFSET + held;
        let target = range_mut(self.bytes.as_mut_slice(), start, start + copied);
        target.copy_from_slice(&input[0..copied]);
        self.state = BufferState::Plaintext { length: held + copied };
        proof {
            let before = match old(self).plaintext_view() {
                Some(plaintext) => plaintext,
                None => Seq::empty(),
            };
            assert(self.raw().subrange(
                SEGMENT_PAYLOAD_OFFSET as int,
                SEGMENT_PAYLOAD_OFFSET + held + copied,
            ) =~= before + input@.take(copied as int));
        }
        copied
    }

    /// Keeps the first `length` bytes of the plaintext that the buffer holds.
    ///
    /// # Errors
    ///
    /// Returns [`Error::InvalidBufferState`] unless the buffer currently holds
    /// plaintext, and [`Error::InvalidPlaintextLength`] when it holds fewer
    /// than `length` bytes.
    pub fn truncate_plaintext(&mut self, length: usize) -> (result: Result<(), Error>)
        requires
            old(self).wf(),
        ensures
            final(self).wf(),
            final(self).parameters() == old(self).parameters(),
            match old(self).plaintext_view() {
                None => result == Err::<(), Error>(Error::InvalidBufferState) && *final(self)
                    == *old(self),
                Some(plaintext) => if length > plaintext.len() {
                    &&& result == Err::<(), Error>(
                        Error::InvalidPlaintextLength {
                            actual: length,
                            required: LengthRequirement::AtMost(plaintext.len() as usize),
                        },
                    )
                    &&& *final(self) == *old(self)
                } else {
                    &&& result is Ok
                    &&& final(self).plaintext_view() == Some(plaintext.take(length as int))
                    &&& final(self).raw() == old(self).raw()
                },
            },
    {
        match self.state {
            BufferState::Plaintext { length: held } => {
                if length > held {
                    return Err(
                        Error::InvalidPlaintextLength {
                            actual: length,
                            required: LengthRequirement::AtMost(held),
                        },
                    );
                }
                self.state = BufferState::Plaintext { length };
                assert(self.plaintext_view()->0 =~= old(self).plaintext_view()->0.take(
                    length as int,
                ));
                Ok(())
            },
            BufferState::Empty | BufferState::Ciphertext { .. } => Err(Error::InvalidBufferState),
        }
    }

    pub(crate) fn plaintext_length(&self) -> (result: Result<usize, Error>)
        ensures
            match result {
                Ok(length) => self.state() == (BufferState::Plaintext { length }),
                Err(error) => !(self.state() is Plaintext) && error == Error::InvalidBufferState,
            },
    {
        match self.state {
            BufferState::Plaintext { length } => Ok(length),
            BufferState::Empty | BufferState::Ciphertext { .. } => Err(Error::InvalidBufferState),
        }
    }

    pub(crate) fn ciphertext_length(&self) -> (result: Result<usize, Error>)
        ensures
            match result {
                Ok(length) => self.state() == (BufferState::Ciphertext { length }),
                Err(error) => !(self.state() is Ciphertext) && error == Error::InvalidBufferState,
            },
    {
        match self.state {
            BufferState::Ciphertext { length } => Ok(length),
            BufferState::Empty | BufferState::Plaintext { .. } => Err(Error::InvalidBufferState),
        }
    }

    pub(crate) fn raw_mut(&mut self) -> (bytes: &mut [u8])
        ensures
            bytes@ == old(self).raw(),
            final(self).raw() == final(bytes)@,
            final(self).parameters() == old(self).parameters(),
            final(self).state() == old(self).state(),
    {
        self.bytes.as_mut_slice()
    }

    pub(crate) fn matches(&self, parameters: Parameters) -> (result: bool)
        ensures
            result == (self.parameters() == parameters),
    {
        self.parameters == parameters
    }

    pub(crate) fn mark_ciphertext(&mut self, length: usize)
        ensures
            final(self).raw() == old(self).raw(),
            final(self).parameters() == old(self).parameters(),
            final(self).state() == (BufferState::Ciphertext { length }),
    {
        self.state = BufferState::Ciphertext { length };
    }

    pub(crate) fn mark_plaintext(&mut self, length: usize)
        ensures
            final(self).raw() == old(self).raw(),
            final(self).parameters() == old(self).parameters(),
            final(self).state() == (BufferState::Plaintext { length }),
    {
        self.state = BufferState::Plaintext { length };
    }

    pub(crate) fn mark_empty(&mut self)
        ensures
            final(self).raw() == old(self).raw(),
            final(self).parameters() == old(self).parameters(),
            final(self).state() is Empty,
    {
        self.state = BufferState::Empty;
    }
}

impl Drop for SegmentBuffer {
    fn drop(&mut self)
        ensures
            final(self).raw().len() == 0,
        opens_invariants none
        no_unwind
    {
        zeroize_vec(&mut self.bytes);
    }
}

} // verus!
