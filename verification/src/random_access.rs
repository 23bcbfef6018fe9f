//! Authenticated random access to complete, seekable FLOE ciphertexts.
//!
//! [`Reader`] authenticates the header and final segment up front, then serves
//! lazily authenticated segment and range reads, and plaintext from a position
//! that can be moved.
//!
//! It holds the stream that it wraps and decides where to read it; it never
//! seeks or reads the stream itself. An operation that needs ciphertext says
//! so: the caller follows [`Reader::request`] until nothing is requested, and
//! calls the operation again.

use crate::buffer::SegmentBuffer;
use crate::bytes::range_mut;
use crate::error::Error;
use crate::header::Header;
use crate::io::{lesser, ReadStep, StreamError};
use crate::model::Session;
use crate::parameters::{Parameters, HEADER_LENGTH};
use crate::secret::zeroize_vec;
use crate::state::DecryptionState;
use crate::wire::{complete_segment, segment_read_error, ReadProgress};
use vstd::prelude::*;

pub mod runs;

pub use crate::layout::{MessageLayout, SegmentLayout, Segments};
pub use runs::ReaderEvent;

verus! {

const HEADER_LENGTH_U64: u64 = 74;

/// How far a [`Reader`] is in reading a segment.
#[derive(Clone, Copy, Debug, PartialEq, Eq, Structural)]
pub enum FetchState {
    /// It is not reading.
    Idle,
    /// It moves the wrapped reader to the segment at this offset.
    Seek { segment: SegmentLayout, offset: u64 },
    /// It reads the segment, after which the wrapped reader is at `after`.
    Read { segment: SegmentLayout, progress: ReadProgress, after: Option<u64> },
    /// The segment is there.
    Ready { segment: SegmentLayout },
    /// It moves the wrapped reader back to this offset.
    Rewind { offset: u64 },
}

/// What a [`Reader`] needs of the reader that it wraps.
#[derive(Clone, Copy, Debug, PartialEq, Eq, Structural)]
pub enum Request {
    /// Nothing.
    Nothing,
    /// Move it to this offset from its start.
    Seek(u64),
    /// Read from it into [`Reader::input`].
    Read,
}

/// What reading a segment came to.
pub enum SegmentStep {
    /// The plaintext of the segment.
    Done(Vec<u8>),
    /// Follow [`Reader::request`] first.
    Fetch,
}

/// One end of a range of plaintext.
#[derive(Clone, Copy, Debug, PartialEq, Eq, Structural)]
pub enum RangeBound {
    /// The range ends with this position.
    Included(u64),
    /// The range ends next to this position.
    Excluded(u64),
    /// The range ends with the plaintext.
    Unbounded,
}

/// What a step of reading a range came to.
#[derive(Clone, Copy, Debug, PartialEq, Eq, Structural)]
pub enum RangeStep {
    /// The range is complete, and has this many bytes.
    Done(usize),
    /// The part of the range that lies in one segment is there.
    Next,
    /// Follow [`Reader::request`] first.
    Fetch,
}

/// A plaintext position to move to.
#[derive(Clone, Copy, Debug, PartialEq, Eq, Structural)]
pub enum SeekTarget {
    /// From the start of the plaintext.
    Start(u64),
    /// From the end of the plaintext.
    End(i64),
    /// From the current position.
    Current(i64),
}

/// A range of plaintext, and how much of it has been read.
#[derive(Clone, Copy, Debug, PartialEq, Eq, Structural)]
pub struct RangeRead {
    start: u64,
    end: u64,
    written: usize,
}

impl RangeRead {
    /// Where the range begins.
    pub closed spec fn start(self) -> u64 {
        self.start
    }

    /// Where the range ends.
    pub closed spec fn end(self) -> u64 {
        self.end
    }

    /// How many bytes of the range have been read.
    pub closed spec fn written(self) -> usize {
        self.written
    }

    /// The range has a length that can be held in memory, of which no more has
    /// been read.
    #[verifier::type_invariant]
    pub open spec fn wf(self) -> bool {
        &&& self.start() <= self.end()
        &&& self.end() - self.start() <= usize::MAX
        &&& self.written() <= self.end() - self.start()
    }

    /// The next position to read.
    pub open spec fn reached(self) -> int {
        self.start() + self.written()
    }

    /// Returns how many bytes the range has.
    pub fn length(self) -> (length: usize)
        ensures
            self.wf(),
            length == self.end() - self.start(),
    {
        proof {
            use_type_invariant(&self);
        }
        (self.end - self.start) as usize
    }
}

/// The position after `bound`, if it can be represented, where a range starts.
pub open spec fn range_start(bound: RangeBound) -> Option<int> {
    match bound {
        RangeBound::Included(start) => Some(start as int),
        RangeBound::Excluded(start) => if start == u64::MAX {
            None
        } else {
            Some(start + 1)
        },
        RangeBound::Unbounded => Some(0),
    }
}

/// The position, if it can be represented, before which a range ends.
pub open spec fn range_end(bound: RangeBound, plaintext_length: u64) -> Option<int> {
    match bound {
        RangeBound::Included(end) => if end == u64::MAX {
            None
        } else {
            Some(end + 1)
        },
        RangeBound::Excluded(end) => Some(end as int),
        RangeBound::Unbounded => Some(plaintext_length as int),
    }
}

/// The error, if any, of a range of a plaintext of `plaintext_length` bytes.
pub open spec fn range_error(
    start: RangeBound,
    end: RangeBound,
    plaintext_length: u64,
) -> Option<StreamError> {
    match range_start(start) {
        None => Some(StreamError::Input(Error::LengthOverflow)),
        Some(first) => match range_end(end, plaintext_length) {
            None => Some(StreamError::Input(Error::LengthOverflow)),
            Some(last) => if first > last || last > plaintext_length {
                Some(
                    StreamError::RangeOutOfBounds {
                        start: first as u64,
                        end: last as u64,
                        length: plaintext_length,
                    },
                )
            } else if last - first > usize::MAX {
                Some(StreamError::Input(Error::LengthOverflow))
            } else {
                None
            },
        },
    }
}

/// The outcome of resolving a range against the complete plaintext length.
pub open spec fn range_resolved(
    start: RangeBound,
    end: RangeBound,
    plaintext_length: u64,
    result: Result<RangeRead, StreamError>,
) -> bool {
    match range_error(start, end, plaintext_length) {
        Some(error) => result == Err::<RangeRead, StreamError>(error),
        None => {
            &&& result is Ok
            &&& result->Ok_0.wf()
            &&& result->Ok_0.start() == range_start(start)->0
            &&& result->Ok_0.end() == range_end(end, plaintext_length)->0
            &&& result->Ok_0.written() == 0
        },
    }
}

/// Resolves a range against the complete plaintext length.
///
/// # Errors
///
/// Returns an error for a range that cannot be represented, or does not lie
/// within the plaintext.
fn resolve_bounds(start: RangeBound, end: RangeBound, plaintext_length: u64) -> (result: Result<
    RangeRead,
    StreamError,
>)
    ensures
        range_resolved(start, end, plaintext_length, result),
{
    let first: u64 = match start {
        RangeBound::Included(start) => start,
        RangeBound::Excluded(start) => match start.checked_add(1) {
            Some(start) => start,
            None => {
                return Err(StreamError::Input(Error::LengthOverflow));
            },
        },
        RangeBound::Unbounded => 0,
    };
    let last: u64 = match end {
        RangeBound::Included(end) => match end.checked_add(1) {
            Some(end) => end,
            None => {
                return Err(StreamError::Input(Error::LengthOverflow));
            },
        },
        RangeBound::Excluded(end) => end,
        RangeBound::Unbounded => plaintext_length,
    };
    if first > last || last > plaintext_length {
        return Err(
            StreamError::RangeOutOfBounds { start: first, end: last, length: plaintext_length },
        );
    }
    if last - first > usize::MAX as u64 {
        return Err(StreamError::Input(Error::LengthOverflow));
    }
    Ok(RangeRead { start: first, end: last, written: 0 })
}

/// The outcome of finding the length of a message that starts at `message_start`
/// and extends to `end`.
pub open spec fn length_found(
    end: u64,
    message_start: u64,
    result: Result<u64, StreamError>,
) -> bool {
    result == if end < message_start {
        Err::<u64, StreamError>(StreamError::EndsBeforeStart)
    } else {
        Ok::<u64, StreamError>((end - message_start) as u64)
    }
}

/// Returns the length of a message that starts at `message_start` and extends
/// to the end of its source.
///
/// # Errors
///
/// Returns an error if the source ends before the message starts.
pub fn remaining_length(end: u64, message_start: u64) -> (result: Result<u64, StreamError>)
    ensures
        length_found(end, message_start, result),
{
    match end.checked_sub(message_start) {
        Some(length) => Ok(length),
        None => Err(StreamError::EndsBeforeStart),
    }
}

/// The outcome of requiring room for a header in `ciphertext_length` bytes.
pub open spec fn header_bound_validated(
    ciphertext_length: u64,
    result: Result<(), StreamError>,
) -> bool {
    result == if ciphertext_length < HEADER_LENGTH {
        Err::<(), StreamError>(
            StreamError::Decryption(
                Error::InvalidHeaderLength { actual: ciphertext_length as usize },
            ),
        )
    } else {
        Ok::<(), StreamError>(())
    }
}

/// Requires a message of `ciphertext_length` bytes to have room for its header.
///
/// # Errors
///
/// Returns [`Error::InvalidHeaderLength`] unless it has.
pub fn validate_header_bound(ciphertext_length: u64) -> (result: Result<(), StreamError>)
    ensures
        header_bound_validated(ciphertext_length, result),
{
    if ciphertext_length < HEADER_LENGTH_U64 {
        return Err(
            StreamError::Decryption(
                Error::InvalidHeaderLength { actual: ciphertext_length as usize },
            ),
        );
    }
    Ok(())
}

/// Authenticated random-access reader for a complete seekable FLOE ciphertext.
///
/// The message lies in the wrapped reader from `message_start` on. Both the
/// header and final segment are authenticated before exposing the message
/// content: create the reader with [`Self::from_parts`], follow
/// [`Self::request`], call [`Self::authenticate_end`], and follow
/// [`Self::request`] again.
///
/// The underlying source must not change while this reader is in use.
pub struct Reader<R> {
    inner: R,
    state: DecryptionState,
    header: Header,
    layout: MessageLayout,
    message_start: u64,
    scratch: SegmentBuffer,
    plaintext_position: u64,
    cached_position: Option<u64>,
    /// The wrapped reader's byte position when known, letting contiguous
    /// segment accesses skip redundant seeks. `None` whenever the position is
    /// uncertain.
    inner_position: Option<u64>,
    fetch: FetchState,
}

impl<R> Reader<R> {
    /// The wrapped reader.
    pub closed spec fn inner(&self) -> R {
        self.inner
    }

    /// What the message is decrypted with.
    pub closed spec fn session(&self) -> Session {
        self.state.session()
    }

    /// The state that decrypts segments can be used.
    pub closed spec fn state_wf(&self) -> bool {
        self.state.wf()
    }

    pub closed spec fn spec_header(&self) -> Header {
        self.header
    }

    pub closed spec fn spec_layout(&self) -> MessageLayout {
        self.layout
    }

    /// Where the message starts in the wrapped reader.
    pub closed spec fn message_start(&self) -> u64 {
        self.message_start
    }

    /// The storage for one segment.
    pub closed spec fn scratch(&self) -> SegmentBuffer {
        self.scratch
    }

    /// The plaintext position that the next read starts from.
    pub closed spec fn position(&self) -> u64 {
        self.plaintext_position
    }

    /// The position of the segment whose plaintext is kept.
    pub closed spec fn cached_position(&self) -> Option<u64> {
        self.cached_position
    }

    /// Where the wrapped reader is, if that is known.
    pub closed spec fn inner_position(&self) -> Option<u64> {
        self.inner_position
    }

    /// How far reading a segment is.
    pub closed spec fn fetch(&self) -> FetchState {
        self.fetch
    }

    /// `plaintext` is what some ciphertext authenticates as the segment at
    /// `position`.
    pub open spec fn authentic(&self, position: u64, plaintext: Seq<u8>) -> bool {
        exists|segment: Seq<u8>| #[trigger]
            self.session().decrypted(
                position,
                self.layout().kind_at(position as int),
                segment,
            ) == Ok::<Seq<u8>, Error>(plaintext)
    }

    /// The plaintext that is kept is that of a whole segment, and authentic.
    pub open spec fn cache_wf(&self) -> bool {
        self.cached_position() matches Some(position) ==> {
            &&& position < self.layout().segment_count()
            &&& self.scratch().plaintext_view() matches Some(plaintext)
            &&& plaintext.len() == self.layout().plaintext_size(position as int)
            &&& self.authentic(position, plaintext)
        }
    }

    /// `segment` is one of the message.
    pub open spec fn belongs(&self, segment: SegmentLayout) -> bool {
        &&& segment.position() < self.layout().segment_count()
        &&& segment.describes(self.layout(), segment.position() as int)
    }

    /// What reading a segment has left in the storage.
    pub open spec fn fetch_wf(&self) -> bool {
        match self.fetch() {
            FetchState::Idle => true,
            FetchState::Rewind { .. } => true,
            FetchState::Seek { segment, offset } => {
                &&& self.belongs(segment)
                &&& self.cached_position() is None
                &&& offset == self.message_start() + segment.ciphertext_offset()
            },
            FetchState::Read { segment, progress, after } => {
                &&& self.belongs(segment)
                &&& self.cached_position() is None
                &&& self.scratch().ciphertext_view() is Some
                &&& self.scratch().ciphertext_view()->0.len() == segment.ciphertext_length()
                &&& progress.required() == segment.ciphertext_length()
                &&& progress.filled() < segment.ciphertext_length()
                &&& !progress.ended()
                &&& after == end_of(self.message_start(), segment)
            },
            FetchState::Ready { segment } => {
                &&& self.belongs(segment)
                &&& self.cached_position() is None
                &&& self.scratch().ciphertext_view() is Some
                &&& self.scratch().ciphertext_view()->0.len() == segment.ciphertext_length()
            },
        }
    }

    /// The storage fits the message, and what it holds is accounted for.
    pub open spec fn wf(&self) -> bool {
        &&& self.state_wf()
        &&& self.layout().wf()
        &&& self.layout().parameters() == self.session().parameters
        &&& self.scratch().wf()
        &&& self.scratch().parameters() == self.session().parameters
        &&& self.cache_wf()
        &&& self.fetch_wf()
    }

    /// Both are states of a reader of one message.
    pub open spec fn same_message(before: Self, after: Self) -> bool {
        &&& after.inner() == before.inner()
        &&& after.session() == before.session()
        &&& after.spec_header() == before.spec_header()
        &&& after.layout() == before.layout()
        &&& after.message_start() == before.message_start()
    }

    /// The segment at `position` is there.
    pub open spec fn ready(&self, position: u64) -> bool {
        self.fetch() matches FetchState::Ready { segment } && segment.position() == position
    }

    /// What the segment that is there gives, as the one at `position`.
    pub open spec fn plaintext_at(&self, position: u64) -> Result<Seq<u8>, Error> {
        self.session().decrypted(
            position,
            self.layout().kind_at(position as int),
            self.scratch().ciphertext_view()->0,
        )
    }

    pub open spec fn spec_request(&self) -> Request {
        match self.fetch() {
            FetchState::Idle => Request::Nothing,
            FetchState::Ready { .. } => Request::Nothing,
            FetchState::Seek { offset, .. } => Request::Seek(offset),
            FetchState::Rewind { offset } => Request::Seek(offset),
            FetchState::Read { .. } => Request::Read,
        }
    }

    /// The error, if any, of reading the segment at `position`: it lies where
    /// no reader can be.
    pub open spec fn offset_error(&self, position: u64) -> Option<StreamError> {
        if self.message_start() + self.layout().ciphertext_start(position as int) > u64::MAX {
            Some(StreamError::Input(Error::LengthOverflow))
        } else {
            None
        }
    }

    /// Reading the segment at `position` begins, with a seek unless the wrapped
    /// reader is known to be there.
    pub open spec fn fetch_begun(before: Self, after: Self, position: u64) -> bool {
        let offset = before.message_start() + before.layout().ciphertext_start(position as int);
        &&& after.position() == before.position()
        &&& after.cached_position() is None
        &&& before.offset_error(position) is Some ==> after.fetch() is Idle
            && after.inner_position() == before.inner_position()
        &&& before.offset_error(position) is None ==> {
            &&& after.request() == if before.inner_position() == Some(offset as u64) {
                Request::Read
            } else {
                Request::Seek(offset as u64)
            }
            &&& match after.fetch() {
                FetchState::Seek { segment, .. } => segment.position() == position,
                FetchState::Read { segment, progress, .. } => segment.position() == position
                    && progress.filled() == 0,
                _ => false,
            }
            &&& after.inner_position() is None
        }
    }

    /// Returns what this reader needs of the wrapped reader.
    #[verifier::when_used_as_spec(spec_request)]
    pub fn request(&self) -> (request: Request)
        ensures
            request == self.request(),
    {
        match self.fetch {
            FetchState::Idle | FetchState::Ready { .. } => Request::Nothing,
            FetchState::Seek { offset, .. } | FetchState::Rewind { offset } => Request::Seek(
                offset,
            ),
            FetchState::Read { .. } => Request::Read,
        }
    }

    /// Returns the authenticated header.
    pub fn header(&self) -> (header: &Header)
        ensures
            *header == self.spec_header(),
    {
        &self.header
    }

    /// Returns the authenticated parameter set.
    pub fn parameters(&self) -> (parameters: Parameters)
        ensures
            parameters == self.session().parameters,
    {
        self.state.parameters()
    }

    /// Returns the complete plaintext length.
    pub fn plaintext_length(&self) -> (length: u64)
        ensures
            length == self.layout().plaintext_length(),
    {
        self.layout.plaintext_length()
    }

    /// Returns the authenticated complete-message segment count.
    pub fn segment_count(&self) -> (count: u64)
        ensures
            count == self.layout().segment_count(),
    {
        self.layout.segment_count()
    }

    /// Returns the authenticated complete message layout.
    #[verifier::when_used_as_spec(spec_layout)]
    pub fn layout(&self) -> (layout: MessageLayout)
        ensures
            layout == self.layout(),
    {
        self.layout
    }

    /// Returns a shared reference to the wrapped seekable reader.
    pub fn get_ref(&self) -> (inner: &R)
        ensures
            *inner == self.inner(),
    {
        &self.inner
    }

    /// Returns a mutable reference to the wrapped seekable reader.
    ///
    /// This discards the tracked stream position, so the next segment access
    /// seeks explicitly even if the wrapped reader was not moved.
    pub fn get_mut(&mut self) -> (inner: &mut R)
        ensures
            *inner == old(self).inner(),
            final(self).inner() == *final(inner),
            final(self).inner_position() is None,
            Self::same_but_inner(*old(self), *final(self)),
            final(self).scratch() == old(self).scratch(),
    {
        self.inner_position = None;
        &mut self.inner
    }

    /// Everything but the wrapped reader, where it is, and the storage is the
    /// same.
    pub open spec fn same_but_inner(before: Self, after: Self) -> bool {
        &&& after.session() == before.session()
        &&& after.state_wf() == before.state_wf()
        &&& after.spec_header() == before.spec_header()
        &&& after.layout() == before.layout()
        &&& after.message_start() == before.message_start()
        &&& after.position() == before.position()
        &&& after.cached_position() == before.cached_position()
        &&& after.fetch() == before.fetch()
    }

    /// Nothing was read yet of the message of `ciphertext_length` bytes that
    /// starts at `message_start`, and its final segment is requested.
    pub open spec fn fresh(
        &self,
        session: Session,
        message_start: u64,
        ciphertext_length: u64,
    ) -> bool {
        let last = (self.layout().segment_count() - 1) as u64;
        &&& self.wf()
        &&& self.session() == session
        &&& self.message_start() == message_start
        &&& self.layout().ciphertext_length() == ciphertext_length
        &&& self.layout().segment_count() == session.parameters.segments_for_body(
            ciphertext_length - HEADER_LENGTH,
        )
        &&& self.position() == 0
        &&& self.cached_position() is None
        &&& self.inner_position() is None
        &&& self.offset_error(last) is None
        &&& self.fetch() matches FetchState::Seek { segment, .. }
        &&& segment.position() == last
    }

    /// Creates a reader of the message of `ciphertext_length` bytes that starts
    /// at `message_start` of `inner`, with what its header gave. The first
    /// request is for the final segment.
    ///
    /// # Errors
    ///
    /// Returns an error for an impossible complete ciphertext length.
    pub fn from_parts(
        inner: R,
        state: DecryptionState,
        header: Header,
        message_start: u64,
        ciphertext_length: u64,
    ) -> (result: Result<Self, StreamError>)
        requires
            state.wf(),
        ensures
            match state.session().parameters.ciphertext_layout_error(ciphertext_length) {
                Some(error) => result is Err && result->Err_0 == StreamError::Decryption(error),
                None => match result {
                    Ok(reader) => {
                        &&& reader.fresh(state.session(), message_start, ciphertext_length)
                        &&& reader.inner() == inner
                        &&& reader.spec_header() == header
                    },
                    Err(error) => {
                        let layout = state.session().parameters;
                        let last = layout.segments_for_body(ciphertext_length - HEADER_LENGTH) - 1;
                        &&& error == StreamError::Input(Error::LengthOverflow)
                        &&& message_start + HEADER_LENGTH + last * layout.segment_length()
                            > u64::MAX
                    },
                },
            },
    {
        let parameters = state.parameters();
        let layout = match parameters.ciphertext_layout(ciphertext_length) {
            Ok(layout) => layout,
            Err(error) => {
                return Err(StreamError::Decryption(error));
            },
        };
        let mut reader = Self {
            inner,
            state,
            header,
            layout,
            message_start,
            scratch: SegmentBuffer::new(parameters),
            plaintext_position: 0,
            cached_position: None,
            inner_position: None,
            fetch: FetchState::Idle,
        };
        reader.begin_fetch(layout.final_segment())?;
        Ok(reader)
    }

    /// The outcome of authenticating the final segment, which is there.
    pub open spec fn end_authenticated(
        before: Self,
        after: Self,
        result: Result<(), StreamError>,
    ) -> bool {
        let offset = before.message_start() + HEADER_LENGTH;
        &&& after.position() == before.position()
        &&& after.cached_position() is None
        &&& match before.plaintext_at((before.layout().segment_count() - 1) as u64) {
            Ok(_) => if offset > u64::MAX {
                &&& result == Err::<(), StreamError>(StreamError::Input(Error::LengthOverflow))
                &&& after.fetch() is Idle
                &&& after.inner_position() == before.inner_position()
            } else if before.inner_position() == Some(offset as u64) {
                &&& result is Ok
                &&& after.fetch() is Idle
                &&& after.inner_position() == before.inner_position()
            } else {
                &&& result is Ok
                &&& after.fetch() == (FetchState::Rewind { offset: offset as u64 })
                &&& after.inner_position() is None
            },
            Err(error) => {
                &&& result == Err::<(), StreamError>(StreamError::Decryption(error))
                &&& after.fetch() is Idle
                &&& after.inner_position() == before.inner_position()
            },
        }
    }

    /// Authenticates the final segment that was requested first, and requests
    /// to move the wrapped reader to the start of the body.
    ///
    /// # Errors
    ///
    /// Returns an error if the final segment is malformed or cannot be
    /// authenticated.
    pub fn authenticate_end(&mut self) -> (result: Result<(), StreamError>)
        requires
            old(self).wf(),
            old(self).ready((old(self).layout().segment_count() - 1) as u64),
        ensures
            final(self).wf(),
            Self::same_message(*old(self), *final(self)),
            Self::end_authenticated(*old(self), *final(self), result),
    {
        let segment = self.layout.final_segment();
        self.load_segment(segment)?;
        self.scratch.clear();
        self.cached_position = None;
        let offset = match self.message_start.checked_add(HEADER_LENGTH_U64) {
            Some(offset) => offset,
            None => {
                return Err(StreamError::Input(Error::LengthOverflow));
            },
        };
        if !is_at(self.inner_position, offset) {
            self.inner_position = None;
            self.fetch = FetchState::Rewind { offset };
        }
        Ok(())
    }

    fn segment(&self, position: u64) -> (result: Result<SegmentLayout, StreamError>)
        ensures
            if position < self.layout().segment_count() {
                &&& result is Ok
                &&& self.belongs(result->Ok_0)
                &&& result->Ok_0.position() == position
            } else {
                result == Err::<SegmentLayout, StreamError>(
                    StreamError::SegmentOutOfRange {
                        position,
                        count: self.layout().segment_count(),
                    },
                )
            },
    {
        match self.layout.segment_for_position(position) {
            Some(segment) => Ok(segment),
            None => Err(
                StreamError::SegmentOutOfRange { position, count: self.layout.segment_count() },
            ),
        }
    }

    /// Invalidates the plaintext cache, and begins to read `segment`.
    fn begin_fetch(&mut self, segment: SegmentLayout) -> (result: Result<(), StreamError>)
        requires
            old(self).wf(),
            old(self).belongs(segment),
        ensures
            final(self).wf(),
            Self::same_message(*old(self), *final(self)),
            Self::fetch_begun(*old(self), *final(self), segment.position()),
            match old(self).offset_error(segment.position()) {
                Some(error) => result == Err::<(), StreamError>(error),
                None => result is Ok,
            },
    {
        self.cached_position = None;
        self.fetch = FetchState::Idle;
        let offset = match self.message_start.checked_add(segment.ciphertext_offset()) {
            Some(offset) => offset,
            None => {
                return Err(StreamError::Input(Error::LengthOverflow));
            },
        };
        if is_at(self.inner_position, offset) {
            self.begin_read(segment, offset);
        } else {
            self.inner_position = None;
            self.fetch = FetchState::Seek { segment, offset };
        }
        Ok(())
    }

    /// Begins to read `segment`, which starts where the wrapped reader is.
    ///
    /// The stream position is uncertain while the read is outstanding: a failed
    /// or short read leaves the reader somewhere inside the segment.
    fn begin_read(&mut self, segment: SegmentLayout, offset: u64)
        requires
            old(self).wf(),
            old(self).belongs(segment),
            old(self).cached_position() is None,
            offset == old(self).message_start() + segment.ciphertext_offset(),
        ensures
            final(self).wf(),
            Self::same_message(*old(self), *final(self)),
            final(self).position() == old(self).position(),
            final(self).cached_position() is None,
            final(self).inner_position() is None,
            final(self).fetch() matches FetchState::Read { segment: begun, progress, .. } && begun
                == segment && progress.filled() == 0,
    {
        let length = segment.ciphertext_length();
        let after = offset.checked_add(length as u64);
        self.inner_position = None;
        match self.scratch.prepare_ciphertext(length) {
            Ok(_) => {},
            Err(_) => {},
        }
        self.fetch = FetchState::Read {
            segment,
            progress: ReadProgress::new(length, 0),
            after,
        };
    }

    /// The state once the wrapped reader is moved as requested.
    pub open spec fn inner_moved(before: Self, after: Self) -> bool {
        &&& after.position() == before.position()
        &&& match before.fetch() {
            FetchState::Seek { segment, .. } => {
                &&& after.cached_position() is None
                &&& after.inner_position() is None
                &&& after.fetch() matches FetchState::Read { segment: begun, progress, .. }
                &&& begun == segment
                &&& progress.filled() == 0
            },
            FetchState::Rewind { offset } => {
                &&& after.cached_position() == before.cached_position()
                &&& after.scratch() == before.scratch()
                &&& after.fetch() is Idle
                &&& after.inner_position() == Some(offset)
            },
            _ => after == before,
        }
    }

    /// Records that the wrapped reader was moved as requested.
    pub fn sought(&mut self)
        requires
            old(self).wf(),
        ensures
            final(self).wf(),
            Self::same_message(*old(self), *final(self)),
            Self::inner_moved(*old(self), *final(self)),
    {
        match self.fetch {
            FetchState::Seek { segment, offset } => {
                self.begin_read(segment, offset);
            },
            FetchState::Rewind { offset } => {
                self.inner_position = Some(offset);
                self.fetch = FetchState::Idle;
            },
            FetchState::Idle | FetchState::Read { .. } | FetchState::Ready { .. } => {},
        }
    }

    /// Where the next ciphertext bytes are to be read to.
    pub open spec fn target(&self) -> Seq<u8> {
        match self.fetch() {
            FetchState::Read { progress, .. } => self.scratch().ciphertext_view()->0.skip(
                progress.filled() as int,
            ),
            _ => Seq::empty(),
        }
    }

    /// The ciphertext of the current segment that was read.
    pub open spec fn held(&self) -> Seq<u8> {
        match self.fetch() {
            FetchState::Read { progress, .. } => self.scratch().ciphertext_view()->0.take(
                progress.filled() as int,
            ),
            FetchState::Ready { .. } => self.scratch().ciphertext_view()->0,
            _ => Seq::empty(),
        }
    }

    /// `bytes` were put where the next ciphertext bytes are to be read to.
    pub open spec fn input_filled(before: Self, after: Self, bytes: Seq<u8>) -> bool {
        &&& Self::same_but_inner(before, after)
        &&& after.inner_position() == before.inner_position()
        &&& after.target() == bytes
        &&& after.held() == before.held()
    }

    /// Returns the wrapped reader, and where the next ciphertext bytes from it
    /// are to be read to.
    pub fn input(&mut self) -> (parts: (&mut R, &mut [u8]))
        requires
            old(self).wf(),
            old(self).request() is Read,
        ensures
            *parts.0 == old(self).inner(),
            parts.1@ == old(self).target(),
            parts.1@.len() > 0,
            final(self).inner() == *final(parts.0),
            final(self).inner_position() == old(self).inner_position(),
            Self::same_but_inner(*old(self), *final(self)),
            final(parts.1)@.len() == parts.1@.len() ==> final(self).wf() && Self::input_filled(
                *old(self),
                *final(self),
                final(parts.1)@,
            ),
    {
        let filled: usize = match self.fetch {
            FetchState::Read { progress, .. } => progress.filled(),
            _ => 0,
        };
        (&mut self.inner, self.scratch.ciphertext_from(filled))
    }

    /// The outcome of having read `read` ciphertext bytes.
    pub open spec fn input_recorded(
        before: Self,
        after: Self,
        read: int,
        result: Result<(), StreamError>,
    ) -> bool {
        let segment = before.fetch()->Read_segment;
        let filled = before.fetch()->Read_progress.filled();
        &&& after.position() == before.position()
        &&& after.cached_position() is None
        &&& if read == 0 {
            &&& result == Err::<(), StreamError>(
                StreamError::Decryption(
                    segment_read_error(filled, segment.ciphertext_length())->0,
                ),
            )
            &&& after.fetch() is Idle
            &&& after.inner_position() is None
        } else {
            &&& result is Ok
            &&& after.held() == before.held() + before.target().take(read)
            &&& if read == before.target().len() {
                &&& after.fetch() == (FetchState::Ready { segment })
                &&& after.inner_position() == end_of(before.message_start(), segment)
            } else {
                &&& after.fetch() matches FetchState::Read { segment: same, .. }
                &&& same == segment
                &&& after.inner_position() == before.inner_position()
                &&& after.target() == before.target().skip(read)
            }
        }
    }

    /// Records that `read` bytes were read to the start of [`Self::input`].
    /// None means that the wrapped reader has ended.
    ///
    /// # Errors
    ///
    /// Returns an error if the wrapped reader has ended inside the segment.
    pub fn input_read(&mut self, read: usize) -> (result: Result<(), StreamError>)
        requires
            old(self).wf(),
            old(self).request() is Read,
            read <= old(self).target().len(),
        ensures
            final(self).wf(),
            Self::same_message(*old(self), *final(self)),
            Self::input_recorded(*old(self), *final(self), read as int, result),
    {
        let ghost before = *self;
        let (segment, progress, after) = match self.fetch {
            FetchState::Read { segment, progress, after } => (segment, progress, after),
            _ => {
                return Ok(());
            },
        };
        let mut progress = progress;
        progress.advance(read);
        if !progress.is_done() {
            self.fetch = FetchState::Read { segment, progress, after };
            proof {
                assert(self.held() =~= before.held() + before.target().take(read as int));
                assert(self.target() =~= before.target().skip(read as int));
            }
            return Ok(());
        }
        self.inner_position = None;
        self.fetch = FetchState::Idle;
        if let Err(error) = complete_segment(progress.filled(), segment.ciphertext_length()) {
            return Err(StreamError::Decryption(error));
        }
        self.inner_position = after;
        self.fetch = FetchState::Ready { segment };
        assert(self.held() =~= before.held() + before.target().take(read as int));
        Ok(())
    }

    /// Decrypts `segment`, which is there, and keeps its plaintext.
    fn load_segment(&mut self, segment: SegmentLayout) -> (result: Result<(), StreamError>)
        requires
            old(self).wf(),
            old(self).belongs(segment),
            old(self).ready(segment.position()),
        ensures
            final(self).wf(),
            Self::same_message(*old(self), *final(self)),
            final(self).position() == old(self).position(),
            final(self).inner_position() == old(self).inner_position(),
            final(self).fetch() is Idle,
            match old(self).plaintext_at(segment.position()) {
                Ok(plaintext) => {
                    &&& result is Ok
                    &&& final(self).cached_position() == Some(segment.position())
                    &&& final(self).scratch().plaintext_view() == Some(plaintext)
                },
                Err(error) => {
                    &&& result == Err::<(), StreamError>(StreamError::Decryption(error))
                    &&& final(self).cached_position() is None
                },
            },
    {
        self.fetch = FetchState::Idle;
        let ghost ciphertext = self.scratch.ciphertext_view()->0;
        match self.state.decrypt_segment_in_place(&mut self.scratch, segment) {
            Ok(_) => {},
            Err(error) => {
                return Err(StreamError::Decryption(error));
            },
        }
        self.cached_position = Some(segment.position());
        proof {
            assert(self.session().decrypted(
                segment.position(),
                self.layout().kind_at(segment.position() as int),
                ciphertext,
            ) == Ok::<Seq<u8>, Error>(self.scratch().plaintext_view()->0));
        }
        Ok(())
    }

    /// Decrypts `segment`, which is there, straight into `output`.
    fn decrypt_segment_direct(&mut self, segment: SegmentLayout, output: &mut [u8]) -> (result:
        Result<(), StreamError>)
        requires
            old(self).wf(),
            old(self).belongs(segment),
            old(self).ready(segment.position()),
            old(output)@.len() == segment.plaintext_length(),
        ensures
            final(self).wf(),
            Self::same_message(*old(self), *final(self)),
            final(self).position() == old(self).position(),
            final(self).cached_position() is None,
            final(self).inner_position() == old(self).inner_position(),
            final(self).fetch() is Idle,
            final(output)@.len() == old(output)@.len(),
            match old(self).plaintext_at(segment.position()) {
                Ok(plaintext) => result is Ok && final(output)@ == plaintext,
                Err(error) => {
                    &&& result == Err::<(), StreamError>(StreamError::Decryption(error))
                    &&& error != Error::AuthenticationFailed ==> final(output)@ == old(output)@
                },
            },
    {
        self.fetch = FetchState::Idle;
        let ciphertext = match self.scratch.ciphertext() {
            Ok(ciphertext) => ciphertext,
            Err(error) => {
                return Err(StreamError::Decryption(error));
            },
        };
        let ghost space = output@;
        match self.state.decrypt_segment_into(ciphertext, segment, output) {
            Ok(_) => {},
            Err(error) => {
                return Err(StreamError::Decryption(error));
            },
        }
        assert(space.skip(segment.plaintext_length() as int) =~= Seq::empty());
        assert(output@ =~= output@ + Seq::empty());
        Ok(())
    }

    /// The outcome of an operation that needs the segment at `position`, which
    /// is not there.
    pub open spec fn fetching<Step>(
        before: Self,
        after: Self,
        position: u64,
        fetch: Step,
        result: Result<Step, StreamError>,
    ) -> bool {
        &&& Self::fetch_begun(before, after, position)
        &&& match before.offset_error(position) {
            Some(error) => result is Err && result->Err_0 == error,
            None => result is Ok && result->Ok_0 == fetch,
        }
    }

    /// The error, if any, of reading the segment at `position` into `space`
    /// bytes.
    pub open spec fn segment_error(&self, position: u64, space: int) -> Option<StreamError> {
        let required = self.layout().plaintext_size(position as int);
        if position >= self.layout().segment_count() {
            Some(
                StreamError::SegmentOutOfRange { position, count: self.layout().segment_count() },
            )
        } else if space < required {
            Some(
                StreamError::Input(
                    Error::OutputTooSmall { actual: space as usize, required: required as usize },
                ),
            )
        } else {
            None
        }
    }

    /// The outcome of reading the segment at `position` into `space`, which
    /// leaves `output`.
    pub open spec fn segment_read(
        before: Self,
        after: Self,
        position: u64,
        space: Seq<u8>,
        output: Seq<u8>,
        result: Result<ReadStep, StreamError>,
    ) -> bool {
        let size = before.layout().plaintext_size(position as int);
        &&& after.position() == before.position()
        &&& match before.segment_error(position, space.len() as int) {
            Some(error) => {
                &&& result == Err::<ReadStep, StreamError>(error)
                &&& after == before
                &&& output == space
            },
            None => if before.ready(position) {
                &&& after.fetch() is Idle
                &&& after.cached_position() is None
                &&& after.inner_position() == before.inner_position()
                &&& match before.plaintext_at(position) {
                    Ok(plaintext) => {
                        &&& plaintext.len() == size
                        &&& result == Ok::<ReadStep, StreamError>(ReadStep::Served(size as usize))
                        &&& output == plaintext + space.skip(size)
                    },
                    Err(error) => {
                        &&& result == Err::<ReadStep, StreamError>(StreamError::Decryption(error))
                        &&& error != Error::AuthenticationFailed ==> output == space
                        &&& output.skip(size) == space.skip(size)
                    },
                }
            } else {
                &&& output == space
                &&& Self::fetching(before, after, position, ReadStep::Fetch, result)
            },
        }
    }

    /// Authenticates one complete plaintext segment into `output`, or says that
    /// it must be fetched first.
    ///
    /// # Errors
    ///
    /// Returns an error for an out-of-range position, an `output` that is too
    /// small, malformed framing, or authentication failure.
    pub fn read_segment_into(&mut self, position: u64, output: &mut [u8]) -> (result: Result<
        ReadStep,
        StreamError,
    >)
        requires
            old(self).wf(),
        ensures
            final(self).wf(),
            Self::same_message(*old(self), *final(self)),
            final(output)@.len() == old(output)@.len(),
            Self::segment_read(
                *old(self),
                *final(self),
                position,
                old(output)@,
                final(output)@,
                result,
            ),
    {
        let segment = self.segment(position)?;
        let required = segment.plaintext_length();
        if output.len() < required {
            return Err(
                StreamError::Input(Error::OutputTooSmall { actual: output.len(), required }),
            );
        }
        if !self.is_ready(position) {
            self.begin_fetch(segment)?;
            return Ok(ReadStep::Fetch);
        }
        let ghost space = output@;
        let decrypted = self.decrypt_segment_direct(segment, range_mut(output, 0, required));
        assert(output@.skip(required as int) =~= space.skip(required as int));
        assert(output@.subrange(0, required as int) == space.subrange(0, required as int)
            ==> output@ =~= space);
        decrypted?;
        assert(output@ =~= output@.take(required as int) + space.skip(required as int));
        assert(output@.take(required as int) =~= output@.subrange(0, required as int));
        Ok(ReadStep::Served(required))
    }

    /// The outcome of reading the segment at `position`.
    pub open spec fn segment_returned(
        before: Self,
        after: Self,
        position: u64,
        result: Result<SegmentStep, StreamError>,
    ) -> bool {
        &&& after.position() == before.position()
        &&& if position >= before.layout().segment_count() {
            &&& result is Err
            &&& result->Err_0 == (StreamError::SegmentOutOfRange {
                position,
                count: before.layout().segment_count(),
            })
            &&& after == before
        } else if before.ready(position) {
            &&& after.fetch() is Idle
            &&& after.cached_position() is None
            &&& after.inner_position() == before.inner_position()
            &&& match before.plaintext_at(position) {
                Ok(plaintext) => result is Ok && result->Ok_0 is Done && result->Ok_0->Done_0@
                    == plaintext,
                Err(error) => result is Err && result->Err_0 == StreamError::Decryption(error),
            }
        } else {
            Self::fetching(before, after, position, SegmentStep::Fetch, result)
        }
    }

    /// Authenticates and returns one complete plaintext segment by position, or
    /// says that it must be fetched first.
    ///
    /// # Errors
    ///
    /// Returns an error for an out-of-range position, malformed framing, or
    /// authentication failure.
    pub fn read_segment(&mut self, position: u64) -> (result: Result<SegmentStep, StreamError>)
        requires
            old(self).wf(),
        ensures
            final(self).wf(),
            Self::same_message(*old(self), *final(self)),
            Self::segment_returned(*old(self), *final(self), position, result),
    {
        let segment = self.segment(position)?;
        if !self.is_ready(position) {
            self.begin_fetch(segment)?;
            return Ok(SegmentStep::Fetch);
        }
        let mut plaintext: Vec<u8> = vec![0u8; segment.plaintext_length()];
        let result = self.decrypt_segment_direct(segment, plaintext.as_mut_slice());
        match result {
            Ok(_) => Ok(SegmentStep::Done(plaintext)),
            Err(error) => {
                zeroize_vec(&mut plaintext);
                Err(error)
            },
        }
    }

    fn is_ready(&self, position: u64) -> (ready: bool)
        ensures
            ready == self.ready(position),
    {
        match self.fetch {
            FetchState::Ready { segment } => segment.position() == position,
            _ => false,
        }
    }

    /// Resolves an arbitrary plaintext byte range. Open ends resolve against
    /// the complete plaintext length.
    ///
    /// # Errors
    ///
    /// Returns an error for an invalid range or length overflow.
    pub fn range(&self, start: RangeBound, end: RangeBound) -> (result: Result<
        RangeRead,
        StreamError,
    >)
        ensures
            range_resolved(start, end, self.layout().plaintext_length(), result),
    {
        resolve_bounds(start, end, self.layout.plaintext_length())
    }

    /// How many bytes of `range` lie in the segment of the next one, from there
    /// on.
    pub open spec fn range_count(&self, range: RangeRead) -> int {
        let position = self.layout().position_of(range.reached());
        lesser(
            range.end() - range.reached(),
            self.layout().plaintext_start(position) + self.layout().plaintext_size(position)
                - range.reached(),
        )
    }

    /// The bytes of `range` in the plaintext of the segment of the next one.
    pub open spec fn range_piece(&self, range: RangeRead, plaintext: Seq<u8>) -> Seq<u8> {
        let position = self.layout().position_of(range.reached());
        let from = range.reached() - self.layout().plaintext_start(position);
        plaintext.subrange(from, from + self.range_count(range))
    }

    /// The outcome of a step of reading `range` where the plaintext of the
    /// segment is known.
    pub open spec fn range_advanced(
        before: Self,
        range_before: RangeRead,
        range_after: RangeRead,
        plaintext: Seq<u8>,
        space: Seq<u8>,
        output: Seq<u8>,
        result: Result<RangeStep, StreamError>,
    ) -> bool {
        let written = range_before.written() as int;
        let count = before.range_count(range_before);
        &&& result == Ok::<RangeStep, StreamError>(RangeStep::Next)
        &&& range_after.start() == range_before.start()
        &&& range_after.end() == range_before.end()
        &&& range_after.written() == written + count
        &&& output == space.take(written) + before.range_piece(range_before, plaintext)
            + space.skip(written + count)
    }

    /// Nothing has changed outside the next piece of `range`.
    pub open spec fn kept_around_piece(
        &self,
        range: RangeRead,
        space: Seq<u8>,
        output: Seq<u8>,
    ) -> bool {
        let end = range.written() + self.range_count(range);
        &&& output.take(range.written() as int) == space.take(range.written() as int)
        &&& output.skip(end) == space.skip(end)
    }

    /// The segment of the next byte lies in `range` as a whole.
    pub open spec fn covered(&self, range: RangeRead) -> bool {
        self.range_count(range) == self.layout().plaintext_size(
            self.layout().position_of(range.reached()),
        )
    }

    /// The segment at `position`, which was there, was decrypted. Its plaintext
    /// is kept, where it is authentic, unless it was used as a `whole`.
    pub open spec fn segment_used(before: Self, after: Self, position: u64, whole: bool) -> bool {
        &&& after.position() == before.position()
        &&& after.inner_position() == before.inner_position()
        &&& after.fetch() is Idle
        &&& match before.plaintext_at(position) {
            Ok(plaintext) => if whole {
                after.cached_position() is None
            } else {
                &&& after.cached_position() == Some(position)
                &&& after.scratch().plaintext_view() == Some(plaintext)
            },
            Err(_) => after.cached_position() is None,
        }
    }

    /// The outcome of a step of reading `range` into `space`, which leaves
    /// `output`.
    pub open spec fn range_read(
        before: Self,
        after: Self,
        range_before: RangeRead,
        range_after: RangeRead,
        space: Seq<u8>,
        output: Seq<u8>,
        result: Result<RangeStep, StreamError>,
    ) -> bool {
        let length = range_before.end() - range_before.start();
        let position = before.layout().position_of(range_before.reached()) as u64;
        if space.len() < length {
            &&& result == Err::<RangeStep, StreamError>(
                StreamError::Input(
                    Error::OutputTooSmall {
                        actual: space.len() as usize,
                        required: length as usize,
                    },
                ),
            )
            &&& after == before
            &&& range_after == range_before
            &&& output == space
        } else if range_before.written() == length {
            &&& result == Ok::<RangeStep, StreamError>(RangeStep::Done(length as usize))
            &&& after == before
            &&& range_after == range_before
            &&& output == space
        } else if !before.covered(range_before) && before.cached_position() == Some(position) {
            &&& after == before
            &&& Self::range_advanced(
                before,
                range_before,
                range_after,
                before.scratch().plaintext_view()->0,
                space,
                output,
                result,
            )
        } else if before.ready(position) {
            &&& Self::segment_used(before, after, position, before.covered(range_before))
            &&& match before.plaintext_at(position) {
                Ok(plaintext) => {
                    &&& plaintext.len() == before.layout().plaintext_size(position as int)
                    &&& Self::range_advanced(
                        before,
                        range_before,
                        range_after,
                        plaintext,
                        space,
                        output,
                        result,
                    )
                },
                Err(error) => {
                    &&& result == Err::<RangeStep, StreamError>(StreamError::Decryption(error))
                    &&& range_after == range_before
                    &&& error != Error::AuthenticationFailed || !before.covered(range_before)
                        ==> output == space
                    &&& before.kept_around_piece(range_before, space, output)
                },
            }
        } else {
            &&& Self::fetching(before, after, position, RangeStep::Fetch, result)
            &&& range_after == range_before
            &&& output == space
        }
    }

    /// Authenticates the part of an arbitrary plaintext byte range that lies in
    /// one segment into its place in `output`, or says that the segment must be
    /// fetched first.
    ///
    /// Call this with one `output` until it is done. `output` must have exactly
    /// the range length or be larger.
    ///
    /// # Errors
    ///
    /// Returns an error for an `output` that is too small, malformed framing, or
    /// authentication failure.
    pub fn read_range_into(&mut self, range: &mut RangeRead, output: &mut [u8]) -> (result: Result<
        RangeStep,
        StreamError,
    >)
        requires
            old(self).wf(),
            old(range).wf(),
            old(range).end() <= old(self).layout().plaintext_length(),
        ensures
            final(self).wf(),
            Self::same_message(*old(self), *final(self)),
            final(range).wf(),
            final(output)@.len() == old(output)@.len(),
            Self::range_read(
                *old(self),
                *final(self),
                *old(range),
                *final(range),
                old(output)@,
                final(output)@,
                result,
            ),
    {
        let length = range.length();
        if output.len() < length {
            return Err(
                StreamError::Input(
                    Error::OutputTooSmall { actual: output.len(), required: length },
                ),
            );
        }
        if range.written == length {
            return Ok(RangeStep::Done(length));
        }
        let ghost space = output@;
        let (segment, from, count) = self.range_part(*range);
        let start: usize = range.written;
        let end: usize = start + count;
        let result = self.read_part(segment, from, range_mut(output, start, end));
        proof {
            if output@.subrange(start as int, end as int) == space.subrange(
                start as int,
                end as int,
            ) {
                assert(output@ =~= space);
            }
            assert(output@.take(start as int) =~= space.take(start as int));
            assert(output@.skip(end as int) =~= space.skip(end as int));
        }
        if !result? {
            return Ok(RangeStep::Fetch);
        }
        range.written = end;
        proof {
            let piece = output@.subrange(start as int, end as int);
            assert(output@ =~= space.take(start as int) + piece + space.skip(end as int));
        }
        Ok(RangeStep::Next)
    }

    /// Returns the segment of the next byte of `range`, where in the segment it
    /// is, and how many bytes of the range follow there.
    fn range_part(&self, range: RangeRead) -> (part: (SegmentLayout, usize, usize))
        requires
            self.wf(),
            range.wf(),
            range.end() <= self.layout().plaintext_length(),
            range.written() < range.end() - range.start(),
        ensures
            self.belongs(part.0),
            part.0.position() == self.layout().position_of(range.reached()),
            part.0.plaintext_length() == self.layout().plaintext_size(
                self.layout().position_of(range.reached()),
            ),
            part.1 == range.reached() - self.layout().plaintext_start(
                self.layout().position_of(range.reached()),
            ),
            part.2 == self.range_count(range),
            0 < part.2 <= range.end() - range.reached(),
            part.1 + part.2 <= part.0.plaintext_length(),
    {
        let reached: u64 = range.start + range.written as u64;
        let position = self.layout.position_for_plaintext_offset(reached);
        proof {
            self.layout().lemma_position_of(reached as int);
            self.layout().lemma_segments_tile(position as int);
        }
        let segment = match self.layout.segment_for_position(position) {
            Some(segment) => segment,
            None => self.layout.final_segment(),
        };
        let from: usize = (reached - segment.plaintext_offset()) as usize;
        let left: u64 = range.end - reached;
        let rest: usize = segment.plaintext_length() - from;
        let count: usize = if left < rest as u64 {
            left as usize
        } else {
            rest
        };
        (segment, from, count)
    }

    /// The outcome of reading part of the segment at `position` into `space`,
    /// which leaves `output`.
    pub open spec fn part_read(
        before: Self,
        after: Self,
        position: u64,
        from: int,
        space: Seq<u8>,
        output: Seq<u8>,
        result: Result<bool, StreamError>,
    ) -> bool {
        let size = before.layout().plaintext_size(position as int);
        if space.len() != size && before.cached_position() == Some(position) {
            &&& result == Ok::<bool, StreamError>(true)
            &&& after == before
            &&& output == before.scratch().plaintext_view()->0.subrange(from, from + space.len())
        } else if before.ready(position) {
            &&& Self::segment_used(before, after, position, space.len() == size)
            &&& match before.plaintext_at(position) {
                Ok(plaintext) => {
                    &&& plaintext.len() == size
                    &&& result == Ok::<bool, StreamError>(true)
                    &&& output == plaintext.subrange(from, from + space.len())
                },
                Err(error) => {
                    &&& result == Err::<bool, StreamError>(StreamError::Decryption(error))
                    &&& error != Error::AuthenticationFailed || space.len() != size ==> output
                        == space
                },
            }
        } else {
            &&& Self::fetching(before, after, position, false, result)
            &&& output == space
        }
    }

    /// Reads the plaintext of `segment` from `from` on into `output`. Returns
    /// whether the segment was there.
    fn read_part(&mut self, segment: SegmentLayout, from: usize, output: &mut [u8]) -> (result:
        Result<bool, StreamError>)
        requires
            old(self).wf(),
            old(self).belongs(segment),
            from + old(output)@.len() <= segment.plaintext_length(),
        ensures
            final(self).wf(),
            Self::same_message(*old(self), *final(self)),
            final(output)@.len() == old(output)@.len(),
            Self::part_read(
                *old(self),
                *final(self),
                segment.position(),
                from as int,
                old(output)@,
                final(output)@,
                result,
            ),
    {
        let position = segment.position();
        let is_covered_fully = output.len() == segment.plaintext_length();
        if !is_covered_fully && is_at(self.cached_position, position) {
            self.copy_cached(from, output);
            return Ok(true);
        }
        if !self.is_ready(position) {
            self.begin_fetch(segment)?;
            return Ok(false);
        }
        if is_covered_fully {
            // A fully covered segment decrypts straight into the caller's
            // buffer without an intermediate plaintext copy.
            self.decrypt_segment_direct(segment, output)?;
            assert(output@ =~= output@.subrange(from as int, from + output@.len()));
        } else {
            self.load_segment(segment)?;
            self.copy_cached(from, output);
        }
        Ok(true)
    }

    /// Copies from the plaintext that is kept.
    fn copy_cached(&self, from: usize, output: &mut [u8])
        requires
            self.wf(),
            self.scratch().plaintext_view() is Some,
            from + old(output)@.len() <= self.scratch().plaintext_view()->0.len(),
        ensures
            final(output)@ == self.scratch().plaintext_view()->0.subrange(
                from as int,
                from + old(output)@.len(),
            ),
    {
        let count: usize = output.len();
        if let Ok(plaintext) = self.scratch.plaintext() {
            output.copy_from_slice(&plaintext[from..from + count]);
        }
    }

    /// How many bytes a read into `space` bytes serves from the segment of the
    /// current position.
    pub open spec fn read_count(&self, space: int) -> int {
        let position = self.layout().position_of(self.position() as int);
        lesser(
            space,
            self.layout().plaintext_start(position) + self.layout().plaintext_size(position)
                - self.position(),
        )
    }

    /// The outcome of a read that serves from `plaintext`, which is that of the
    /// segment of the current position.
    pub open spec fn plaintext_served(
        before: Self,
        after: Self,
        plaintext: Seq<u8>,
        space: Seq<u8>,
        output: Seq<u8>,
        result: Result<ReadStep, StreamError>,
    ) -> bool {
        let position = before.layout().position_of(before.position() as int);
        let from = before.position() - before.layout().plaintext_start(position);
        let count = before.read_count(space.len() as int);
        &&& result == Ok::<ReadStep, StreamError>(ReadStep::Served(count as usize))
        &&& after.position() == before.position() + count
        &&& after.cached_position() == Some(position as u64)
        &&& after.scratch().plaintext_view() == Some(plaintext)
        &&& output == plaintext.subrange(from, from + count) + space.skip(count)
    }

    /// The outcome of a read into `space`, which leaves `output`.
    pub open spec fn read_outcome(
        before: Self,
        after: Self,
        space: Seq<u8>,
        output: Seq<u8>,
        result: Result<ReadStep, StreamError>,
    ) -> bool {
        let position = before.layout().position_of(before.position() as int) as u64;
        if space.len() == 0 || before.position() >= before.layout().plaintext_length() {
            &&& result == Ok::<ReadStep, StreamError>(ReadStep::Served(0))
            &&& after == before
            &&& output == space
        } else if before.cached_position() == Some(position) {
            &&& after.fetch() == before.fetch()
            &&& after.inner_position() == before.inner_position()
            &&& Self::plaintext_served(
                before,
                after,
                before.scratch().plaintext_view()->0,
                space,
                output,
                result,
            )
        } else if before.ready(position) {
            &&& after.fetch() is Idle
            &&& after.inner_position() == before.inner_position()
            &&& match before.plaintext_at(position) {
                Ok(plaintext) => Self::plaintext_served(
                    before,
                    after,
                    plaintext,
                    space,
                    output,
                    result,
                ),
                Err(error) => {
                    &&& result == Err::<ReadStep, StreamError>(StreamError::Decryption(error))
                    &&& after.position() == before.position()
                    &&& after.cached_position() is None
                    &&& output == space
                },
            }
        } else {
            &&& Self::fetching(before, after, position, ReadStep::Fetch, result)
            &&& output == space
        }
    }

    /// Reads decrypted plaintext sequentially from the current logical
    /// position, or says that a segment must be fetched first.
    ///
    /// Each segment is authenticated before its bytes are returned; sequential
    /// reads within one segment reuse the internal plaintext cache.
    ///
    /// # Errors
    ///
    /// Returns an error for malformed framing or authentication failure.
    pub fn read(&mut self, output: &mut [u8]) -> (result: Result<ReadStep, StreamError>)
        requires
            old(self).wf(),
        ensures
            final(self).wf(),
            Self::same_message(*old(self), *final(self)),
            final(output)@.len() == old(output)@.len(),
            Self::read_outcome(
                *old(self),
                *final(self),
                old(output)@,
                final(output)@,
                result,
            ),
    {
        if output.len() == 0 || self.plaintext_position >= self.layout.plaintext_length() {
            return Ok(ReadStep::Served(0));
        }
        let position = self.layout.position_for_plaintext_offset(self.plaintext_position);
        proof {
            self.layout().lemma_position_of(self.plaintext_position as int);
            self.layout().lemma_segments_tile(position as int);
        }
        let segment = self.segment(position)?;
        if !is_at(self.cached_position, position) {
            if !self.is_ready(position) {
                self.begin_fetch(segment)?;
                return Ok(ReadStep::Fetch);
            }
            self.load_segment(segment)?;
        }
        let from: usize = (self.plaintext_position - segment.plaintext_offset()) as usize;
        let left: usize = segment.plaintext_length() - from;
        let read: usize = if output.len() < left {
            output.len()
        } else {
            left
        };
        let ghost space = output@;
        self.copy_cached(from, range_mut(output, 0, read));
        self.plaintext_position = self.plaintext_position + read as u64;
        assert(output@ =~= output@.subrange(0, read as int) + space.skip(read as int));
        Ok(ReadStep::Served(read))
    }

    /// The position, if it can be represented, that `target` stands for.
    pub open spec fn seek_position(&self, target: SeekTarget) -> Option<int> {
        let position = match target {
            SeekTarget::Start(offset) => offset as int,
            SeekTarget::End(delta) => self.layout().plaintext_length() + delta,
            SeekTarget::Current(delta) => self.position() + delta,
        };
        if 0 <= position <= u64::MAX {
            Some(position)
        } else {
            None
        }
    }

    /// The outcome of seeking to `target`: nothing but the position changes.
    pub open spec fn sought_to(
        before: Self,
        after: Self,
        target: SeekTarget,
        result: Result<u64, StreamError>,
    ) -> bool {
        &&& after.scratch() == before.scratch()
        &&& after.cached_position() == before.cached_position()
        &&& after.inner_position() == before.inner_position()
        &&& after.fetch() == before.fetch()
        &&& match before.seek_position(target) {
            Some(position) => {
                &&& result == Ok::<u64, StreamError>(position as u64)
                &&& after.position() == position
            },
            None => {
                &&& result == Err::<u64, StreamError>(StreamError::SeekOutOfRange)
                &&& after.position() == before.position()
            },
        }
    }

    /// Seeks within the decrypted plaintext.
    ///
    /// Positions beyond the plaintext length are permitted, as with a file;
    /// subsequent reads there return end-of-stream.
    ///
    /// # Errors
    ///
    /// Returns an error for a position that cannot be represented.
    pub fn seek(&mut self, target: SeekTarget) -> (result: Result<u64, StreamError>)
        requires
            old(self).wf(),
        ensures
            final(self).wf(),
            Self::same_message(*old(self), *final(self)),
            Self::sought_to(*old(self), *final(self), target, result),
    {
        let resolved = match target {
            SeekTarget::Start(offset) => Some(offset),
            SeekTarget::End(delta) => self.layout.plaintext_length().checked_add_signed(delta),
            SeekTarget::Current(delta) => self.plaintext_position.checked_add_signed(delta),
        };
        match resolved {
            Some(position) => {
                self.plaintext_position = position;
                Ok(position)
            },
            None => Err(StreamError::SeekOutOfRange),
        }
    }

    /// Returns the plaintext position that the next read starts from.
    pub fn stream_position(&self) -> (position: u64)
        ensures
            position == self.position(),
    {
        self.plaintext_position
    }

    /// The segment at `position` of a message with the plaintext `message`.
    pub open spec fn message_piece(&self, message: Seq<u8>, position: int) -> Seq<u8> {
        message.subrange(
            self.layout().plaintext_start(position),
            self.layout().plaintext_start(position) + self.layout().plaintext_size(position),
        )
    }

    /// Reading a range gives that range of the plaintext: where every segment
    /// gives its piece of `message`, each step extends what was read of the
    /// range, so that in the end it is all there.
    pub proof fn lemma_range_is_read(
        &self,
        message: Seq<u8>,
        range_before: RangeRead,
        range_after: RangeRead,
        space: Seq<u8>,
        output: Seq<u8>,
    )
        requires
            self.wf(),
            message.len() == self.layout().plaintext_length(),
            range_before.wf(),
            range_before.written() < range_before.end() - range_before.start(),
            range_before.end() <= self.layout().plaintext_length(),
            range_before.end() - range_before.start() <= space.len(),
            space.take(range_before.written() as int) == message.subrange(
                range_before.start() as int,
                range_before.reached(),
            ),
            Self::range_advanced(
                *self,
                range_before,
                range_after,
                self.message_piece(message, self.layout().position_of(range_before.reached())),
                space,
                output,
                Ok(RangeStep::Next),
            ),
        ensures
            range_before.written() < range_after.written(),
            output.take(range_after.written() as int) == message.subrange(
                range_after.start() as int,
                range_after.reached(),
            ),
            range_after.written() == range_after.end() - range_after.start() ==> output.take(
                range_after.written() as int,
            ) == message.subrange(range_after.start() as int, range_after.end() as int),
    {
        let position = self.layout().position_of(range_before.reached());
        self.layout().lemma_position_of(range_before.reached());
        self.layout().lemma_segments_tile(position);
        let piece = self.range_piece(range_before, self.message_piece(message, position));
        assert(piece =~= message.subrange(range_before.reached(), range_after.reached()));
        assert(output.take(range_after.written() as int) =~= message.subrange(
            range_after.start() as int,
            range_after.reached(),
        ));
    }

    /// A read at a plaintext position gives the plaintext at that position:
    /// where the segment there gives its piece of `message`, what is served is
    /// what `message` holds there, and not nothing.
    pub proof fn lemma_read_serves_position(
        before: Self,
        after: Self,
        message: Seq<u8>,
        space: Seq<u8>,
        output: Seq<u8>,
        served: usize,
    )
        requires
            before.wf(),
            message.len() == before.layout().plaintext_length(),
            before.position() < before.layout().plaintext_length(),
            0 < space.len() <= usize::MAX,
            Self::plaintext_served(
                before,
                after,
                before.message_piece(
                    message,
                    before.layout().position_of(before.position() as int),
                ),
                space,
                output,
                Ok(ReadStep::Served(served)),
            ),
        ensures
            0 < served <= space.len(),
            after.position() == before.position() + served,
            output.take(served as int) == message.subrange(
                before.position() as int,
                after.position() as int,
            ),
    {
        let position = before.layout().position_of(before.position() as int);
        before.layout().lemma_position_of(before.position() as int);
        before.layout().lemma_segments_tile(position);
        assert(output.take(served as int) =~= message.subrange(
            before.position() as int,
            after.position() as int,
        ));
    }

    /// Extracts the wrapped reader, consuming this reader.
    pub fn into_inner(self) -> (inner: R)
        ensures
            inner == self.inner(),
    {
        self.inner
    }
}

/// Whether `position` is known to be `offset`.
fn is_at(position: Option<u64>, offset: u64) -> (result: bool)
    ensures
        result == (position == Some(offset)),
{
    match position {
        Some(position) => position == offset,
        None => false,
    }
}

/// Where `segment` of a message that starts at `message_start` ends, if that
/// can be represented.
pub open spec fn end_of(message_start: u64, segment: SegmentLayout) -> Option<u64> {
    let end = message_start + segment.ciphertext_offset() + segment.ciphertext_length();
    if end > u64::MAX {
        None
    } else {
        Some(end as u64)
    }
}

} // verus!
