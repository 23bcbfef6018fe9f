use crate::buffer::SegmentBuffer;
use crate::bytes::{range_mut, tail_mut};
use crate::counter::SegmentCounter;
use crate::error::Error;
use crate::header::Header;
use crate::io::{lesser, FinishError, ReadStep, StreamError, StreamStatus};
use crate::key::Key;
use crate::layout::SegmentFraming;
use crate::message::{
    body_decrypted, full_segments, lemma_full_segments, lemma_opens_with_nothing,
    lemma_opens_with_segment, lemma_valid_message_continues, message_decrypted, opens_with,
};
use crate::model::{header_iv, segment_aad, segment_nonce, session, Session};
use crate::online::{segment_prefix_value, Decryptor};
use crate::parameters::{
    Parameters, SegmentKind, ENCODED_PARAMETERS_LENGTH, HEADER_LENGTH, SEGMENT_PAYLOAD_OFFSET,
    SEGMENT_PREFIX_LENGTH,
};
use crate::primitives::lemma_opened_length;
use crate::state::start_inferred_error;
use crate::wire::{complete_segment, segment_read_error, ReadProgress};
use vstd::prelude::*;

verus! {

/// How far a [`DecryptReader`] is in reading its next segment.
#[derive(Clone, Copy, Debug, PartialEq, Eq, Structural)]
pub enum SegmentFetch {
    /// It is not reading.
    Idle,
    /// It reads the prefix of the segment.
    Prefix(ReadProgress),
    /// It reads the rest of the segment.
    Body { framing: SegmentFraming, progress: ReadProgress },
    /// The segment is there.
    Ready { framing: SegmentFraming },
}

/// What authenticating the unread remainder of a message came to.
#[derive(Clone, Copy, Debug, PartialEq, Eq, Structural)]
pub enum DrainStep {
    /// The final segment is authenticated.
    Done,
    /// The wrapped reader must be read first.
    Fetch,
}

/// A bounded-memory FLOE decrypting reader.
///
/// Reading stops exactly after the authenticated final segment.
/// [`Self::try_finish_frame`] authenticates any unread remainder, and
/// [`Self::try_finish`] then **requires the underlying stream to end there**,
/// consistent with [`crate::decrypt`] and [`crate::random_access::Reader`].
///
/// When the FLOE message is deliberately embedded in a larger stream and bytes
/// may follow, leave out [`Self::try_finish`], which leaves following bytes
/// unread.
pub struct DecryptReader<R> {
    inner: R,
    decryptor: Option<Decryptor>,
    header: Header,
    buffer: SegmentBuffer,
    plaintext_consumed: usize,
    plaintext_available: usize,
    prefix: [u8; SEGMENT_PREFIX_LENGTH],
    fetch: SegmentFetch,
    status: StreamStatus,
    session: Ghost<Session>,
    taken: Ghost<Seq<u8>>,
    opened: Ghost<Seq<u8>>,
}

impl<R> DecryptReader<R> {
    /// The wrapped reader.
    pub closed spec fn inner(&self) -> R {
        self.inner
    }

    /// What decrypts the next segment, while the message is open.
    pub closed spec fn decryptor(&self) -> Option<Decryptor> {
        self.decryptor
    }

    pub closed spec fn spec_header(&self) -> Header {
        self.header
    }

    /// The storage for one segment.
    pub closed spec fn buffer(&self) -> SegmentBuffer {
        self.buffer
    }

    /// The part of the buffered plaintext that was not served yet.
    pub closed spec fn unserved(&self) -> (int, int) {
        (self.plaintext_consumed as int, self.plaintext_available as int)
    }

    /// The storage for the prefix of a segment.
    pub closed spec fn prefix(&self) -> Seq<u8> {
        self.prefix@
    }

    /// How far reading the next segment is.
    pub closed spec fn fetch(&self) -> SegmentFetch {
        self.fetch
    }

    /// Whether this reader can still be used.
    pub closed spec fn status(&self) -> StreamStatus {
        self.status
    }

    /// What the message is decrypted with.
    pub closed spec fn session(&self) -> Session {
        self.session@
    }

    /// All the ciphertext that was read from the wrapped reader, after the
    /// header.
    pub closed spec fn taken(&self) -> Seq<u8> {
        self.taken@
    }

    /// All the plaintext that was authenticated.
    pub closed spec fn opened(&self) -> Seq<u8> {
        self.opened@
    }

    /// The plaintext that was authenticated and not served yet.
    pub open spec fn available(&self) -> Seq<u8> {
        if self.unserved().0 < self.unserved().1 {
            self.buffer().plaintext_view()->0.skip(self.unserved().0)
        } else {
            Seq::empty()
        }
    }

    /// The ciphertext that was read and is not decrypted yet.
    pub open spec fn held(&self) -> Seq<u8> {
        match self.fetch() {
            SegmentFetch::Idle => Seq::empty(),
            SegmentFetch::Prefix(progress) => self.prefix().take(progress.filled() as int),
            SegmentFetch::Body { progress, .. } => self.buffer().ciphertext_view()->0.take(
                progress.filled() as int,
            ),
            SegmentFetch::Ready { .. } => self.buffer().ciphertext_view()->0,
        }
    }

    /// The ciphertext that is decrypted.
    pub open spec fn decrypted(&self) -> Seq<u8> {
        self.taken().take(self.taken().len() - self.held().len())
    }

    /// Where the next ciphertext bytes are to be read to.
    pub open spec fn target(&self) -> Seq<u8> {
        match self.fetch() {
            SegmentFetch::Prefix(progress) => self.prefix().skip(progress.filled() as int),
            SegmentFetch::Body { progress, .. } => self.buffer().ciphertext_view()->0.skip(
                progress.filled() as int,
            ),
            _ => Seq::empty(),
        }
    }

    /// The buffer holds a segment, or room for one, that `framing` describes
    /// and whose prefix declares it.
    pub open spec fn framed(&self, framing: SegmentFraming) -> bool {
        let segment = self.buffer().ciphertext_view()->0;
        &&& self.buffer().ciphertext_view() is Some
        &&& segment.len() == framing.ciphertext_length()
        &&& framing.declared_by(self.session().parameters, segment_prefix_value(segment))
    }

    /// What reading a segment has left in the buffer.
    pub open spec fn fetch_wf(&self) -> bool {
        match self.fetch() {
            SegmentFetch::Idle => true,
            SegmentFetch::Prefix(progress) => {
                &&& progress.required() == SEGMENT_PREFIX_LENGTH
                &&& progress.filled() < SEGMENT_PREFIX_LENGTH
                &&& !progress.ended()
            },
            SegmentFetch::Body { framing, progress } => {
                &&& self.framed(framing)
                &&& progress.required() == framing.ciphertext_length()
                &&& SEGMENT_PREFIX_LENGTH <= progress.filled() < framing.ciphertext_length()
                &&& !progress.ended()
            },
            SegmentFetch::Ready { framing } => self.framed(framing),
        }
    }

    /// What was authenticated ends with what is still to be served. While the
    /// message is open, its decrypted segments are full and give what was
    /// authenticated, and the rest of what was read is held. Once it is complete, all that was
    /// read decrypts to what was authenticated.
    pub open spec fn wf(&self) -> bool {
        &&& self.session().parameters.wf()
        &&& self.buffer().wf()
        &&& self.buffer().parameters() == self.session().parameters
        &&& self.prefix().len() == SEGMENT_PREFIX_LENGTH
        &&& self.status() is Failed || self.serving_wf() && match self.status() {
            StreamStatus::Finished => self.complete(),
            _ => self.fetch_wf() && self.continues(),
        }
    }

    /// What is to be served is there.
    pub open spec fn serving_wf(&self) -> bool {
        &&& 0 <= self.unserved().0 <= self.unserved().1
        &&& self.unserved().0 < self.unserved().1 ==> self.fetch() is Idle
            && self.buffer().plaintext_view() is Some
            && self.buffer().plaintext_view()->0.len() == self.unserved().1
        &&& self.available().len() <= self.opened().len()
        &&& self.available() == self.opened().skip(self.position())
    }

    /// How many plaintext bytes were served, or passed over.
    pub open spec fn position(&self) -> int {
        self.opened().len() - self.available().len()
    }

    /// The message is open.
    pub open spec fn continues(&self) -> bool {
        &&& self.decryptor() matches Some(decryptor)
        &&& decryptor.wf()
        &&& decryptor.session() == self.session()
        &&& self.held().len() <= self.taken().len()
        &&& self.taken() == self.decrypted() + self.held()
        &&& opens_with(self.session(), self.decrypted(), self.opened(), decryptor.counter())
        &&& full_segments(
            self.session().parameters,
            decryptor.counter(),
            self.decrypted().len() as int,
            self.opened().len() as int,
        )
    }

    /// The message is complete.
    pub open spec fn complete(&self) -> bool {
        &&& self.fetch() is Idle
        &&& body_decrypted(self.session(), SegmentCounter::start(), self.taken()) == Ok::<
            Seq<u8>,
            Error,
        >(self.opened())
    }

    /// Both are states of one stream.
    pub open spec fn same_stream(before: Self, after: Self) -> bool {
        &&& after.inner() == before.inner()
        &&& after.spec_header() == before.spec_header()
        &&& after.session() == before.session()
    }

    /// A finished reader has read a message that decrypts, under the key and
    /// associated data that the reader was made with, to the plaintext that it
    /// has authenticated.
    pub proof fn lemma_finished_message_decrypts(&self, key: Key, aad: Seq<u8>)
        requires
            self.wf(),
            self.status() is Finished,
            start_inferred_error(key, aad, self.spec_header()@) is None,
            self.session() == session(
                key@,
                Parameters::decoding(
                    self.spec_header()@.take(ENCODED_PARAMETERS_LENGTH as int),
                )->0,
                header_iv(self.spec_header()@),
                aad,
            ),
        ensures
            message_decrypted(key@, aad, self.spec_header()@ + self.taken()) == Ok::<
                Seq<u8>,
                Error,
            >(self.opened()),
    {
        let bytes = self.spec_header()@;
        let ciphertext = bytes + self.taken();
        self.spec_header().lemma_length();
        assert(ciphertext.take(HEADER_LENGTH as int) =~= bytes);
        assert(ciphertext.skip(HEADER_LENGTH as int) =~= self.taken());
        assert(ciphertext.take(ENCODED_PARAMETERS_LENGTH as int) =~= bytes.take(
            ENCODED_PARAMETERS_LENGTH as int,
        ));
    }

    /// A message that decrypts is read without an error, and what is read of it
    /// begins the plaintext that it decrypts to. Where what was read and `rest`
    /// are such a message, the segment that is there is accepted.
    pub proof fn lemma_valid_message_is_read(
        &self,
        framing: SegmentFraming,
        rest: Seq<u8>,
        message: Seq<u8>,
    )
        requires
            self.wf(),
            self.status() is Open,
            self.fetch() == (SegmentFetch::Ready { framing }),
            body_decrypted(self.session(), SegmentCounter::start(), self.taken() + rest) == Ok::<
                Seq<u8>,
                Error,
            >(message),
        ensures
            self.next_plaintext(framing) is Ok,
            (self.opened() + self.next_plaintext(framing)->Ok_0).is_prefix_of(message),
            framing.kind() is Final ==> rest.len() == 0 && message == self.opened()
                + self.next_plaintext(framing)->Ok_0,
    {
        let segment = self.buffer().ciphertext_view()->0;
        lemma_valid_message_continues(
            self.session(),
            self.decrypted(),
            self.opened(),
            self.decryptor()->0.counter(),
            segment,
            rest,
            message,
        );
    }

    /// A message that decrypts is read without an error: where what was read
    /// and `rest` are such a message, a complete prefix is accepted.
    pub proof fn lemma_valid_prefix_is_read(&self, read: int, rest: Seq<u8>)
        requires
            self.wf(),
            self.status() is Open,
            self.fetch() is Prefix,
            read == self.target().len(),
            body_decrypted(
                self.session(),
                SegmentCounter::start(),
                self.taken() + self.target() + rest,
            ) is Ok,
        ensures
            self.input_error(read) is None,
    {
        let prefix = self.prefix();
        assert(self.held() + self.target() =~= prefix);
        assert(self.taken() + self.target() + rest =~= self.decrypted() + prefix + rest);
        assert(prefix.take(SEGMENT_PREFIX_LENGTH as int) =~= prefix);
        lemma_valid_message_continues(
            self.session(),
            self.decrypted(),
            self.opened(),
            self.decryptor()->0.counter(),
            prefix,
            rest,
            body_decrypted(
                self.session(),
                SegmentCounter::start(),
                self.taken() + self.target() + rest,
            )->Ok_0,
        );
    }

    /// Nothing was read yet.
    pub open spec fn fresh(&self) -> bool {
        &&& self.wf()
        &&& self.status() is Open
        &&& self.fetch() is Idle
        &&& self.available().len() == 0
        &&& self.taken() == Seq::<u8>::empty()
        &&& self.opened() == Seq::<u8>::empty()
        &&& self.decryptor()->0.counter() == SegmentCounter::start()
    }

    /// The message is decrypted under `key` and `aad`, with the parameters and
    /// the IV of its header.
    pub open spec fn made_for(&self, key: Seq<u8>, aad: Seq<u8>) -> bool {
        let bytes = self.spec_header()@;
        self.session() == session(
            key,
            Parameters::decoding(bytes.take(ENCODED_PARAMETERS_LENGTH as int))->0,
            header_iv(bytes),
            aad,
        )
    }

    /// Creates a reader of the message that follows `header`, using the
    /// parameters in the header.
    ///
    /// # Errors
    ///
    /// Returns an error if the header cannot be authenticated, or its encoded
    /// parameter set is unsupported.
    pub fn new(inner: R, key: &Key, aad: &[u8], header: Header) -> (result: Result<
        Self,
        StreamError,
    >)
        ensures
            match start_inferred_error(*key, aad@, header@) {
                Some(error) => result is Err && result->Err_0 == StreamError::Decryption(error),
                None => {
                    let reader = result->Ok_0;
                    &&& result is Ok
                    &&& reader.fresh()
                    &&& reader.spec_header() == header
                    &&& reader.made_for(key@, aad@)
                    &&& reader.inner() == inner
                },
            },
    {
        let decryptor = match Decryptor::new(key, aad, &header) {
            Ok(decryptor) => decryptor,
            Err(error) => {
                return Err(StreamError::Decryption(error));
            },
        };
        let ghost session = decryptor.session();
        let parameters = decryptor.parameters();
        proof {
            lemma_opens_with_nothing(session);
            assert(0 * parameters.segment_length() == 0 && 0 * parameters.payload_length() == 0);
        }
        let reader = Self {
            inner,
            decryptor: Some(decryptor),
            header,
            buffer: SegmentBuffer::new(parameters),
            plaintext_consumed: 0,
            plaintext_available: 0,
            prefix: [0; SEGMENT_PREFIX_LENGTH],
            fetch: SegmentFetch::Idle,
            status: StreamStatus::Open,
            session: Ghost(session),
            taken: Ghost(Seq::empty()),
            opened: Ghost(Seq::empty()),
        };
        assert(reader.available() =~= reader.opened().skip(reader.position()));
        assert(reader.decrypted() =~= Seq::empty());
        assert(reader.taken() =~= reader.decrypted() + reader.held());
        Ok(reader)
    }

    /// Returns the authenticated header of the message.
    pub fn header(&self) -> (header: &Header)
        ensures
            *header == self.spec_header(),
    {
        &self.header
    }

    /// Returns the authenticated parameter set.
    pub fn parameters(&self) -> (parameters: Parameters)
        requires
            self.wf(),
        ensures
            parameters == self.session().parameters,
    {
        self.buffer.parameters()
    }

    /// Returns a shared reference to the wrapped reader.
    pub fn get_ref(&self) -> (inner: &R)
        ensures
            *inner == self.inner(),
    {
        &self.inner
    }

    /// Everything but the wrapped reader and the storage for input is the same.
    pub open spec fn same_progress(before: Self, after: Self) -> bool {
        &&& after.decryptor() == before.decryptor()
        &&& after.spec_header() == before.spec_header()
        &&& after.unserved() == before.unserved()
        &&& after.fetch() == before.fetch()
        &&& after.status() == before.status()
        &&& after.session() == before.session()
        &&& after.taken() == before.taken()
        &&& after.opened() == before.opened()
    }

    /// Returns a mutable reference to the wrapped reader.
    ///
    /// Reading ciphertext directly can corrupt the FLOE message boundary.
    pub fn get_mut(&mut self) -> (inner: &mut R)
        ensures
            *inner == old(self).inner(),
            final(self).inner() == *final(inner),
            Self::same_progress(*old(self), *final(self)),
            final(self).buffer() == old(self).buffer(),
            final(self).prefix() == old(self).prefix(),
    {
        &mut self.inner
    }

    /// Returns whether the final segment was authenticated and all its
    /// plaintext was consumed.
    pub fn is_finished(&self) -> (finished: bool)
        requires
            self.wf(),
        ensures
            finished == (self.status() is Finished && self.available().len() == 0),
    {
        matches!(self.status, StreamStatus::Finished) && self.plaintext_consumed
            == self.plaintext_available
    }

    /// Extracts the reader without authenticating unread ciphertext.
    pub fn into_inner_unchecked(self) -> (inner: R)
        ensures
            inner == self.inner(),
    {
        self.inner
    }

    /// What the segment that is there gives.
    pub open spec fn next_plaintext(&self, framing: SegmentFraming) -> Result<Seq<u8>, Error> {
        let counter = self.decryptor()->0.counter();
        match counter.error(framing.kind()) {
            Some(error) => Err(error),
            None => self.session().authenticated(
                counter.next,
                framing.kind(),
                self.buffer().ciphertext_view()->0,
            ),
        }
    }

    /// `piece` was authenticated as the plaintext of the next segment.
    pub open spec fn segment_opened(
        before: Self,
        after: Self,
        framing: SegmentFraming,
        piece: Seq<u8>,
    ) -> bool {
        let counter = before.decryptor()->0.counter();
        &&& after.opened() == before.opened() + piece
        &&& after.taken() == before.taken()
        &&& after.fetch() is Idle
        &&& if framing.kind() is Final {
            after.status() is Finished
        } else {
            &&& after.status() is Open
            &&& after.decryptor()->0.counter() == counter.advanced(SegmentKind::NonFinal)
        }
    }

    /// The outcome of decrypting the segment that is there, and serving it.
    pub open spec fn segment_served(
        before: Self,
        after: Self,
        framing: SegmentFraming,
        space: Seq<u8>,
        output: Seq<u8>,
        result: Result<ReadStep, StreamError>,
    ) -> bool {
        match before.next_plaintext(framing) {
            Ok(piece) => {
                let count = lesser(space.len() as int, piece.len() as int);
                &&& Self::segment_opened(before, after, framing, piece)
                &&& result == Ok::<ReadStep, StreamError>(ReadStep::Served(count as usize))
                &&& output == piece.take(count) + space.skip(count)
                &&& after.available() == piece.skip(count)
            },
            Err(error) => {
                &&& after.status() is Failed
                &&& result == Err::<ReadStep, StreamError>(StreamError::Decryption(error))
                &&& error != Error::AuthenticationFailed || space.len()
                    < before.session().parameters.payload_length() ==> output == space
            },
        }
    }

    /// The outcome of a read of which `count` bytes were there to be served.
    pub open spec fn served_available(
        before: Self,
        after: Self,
        space: Seq<u8>,
        output: Seq<u8>,
        count: int,
    ) -> bool {
        &&& output == before.available().take(count) + space.skip(count)
        &&& after.available() == before.available().skip(count)
        &&& after.decryptor() == before.decryptor()
        &&& after.fetch() == before.fetch()
        &&& after.held() == before.held()
        &&& after.status() == before.status()
        &&& after.taken() == before.taken()
        &&& after.opened() == before.opened()
    }

    /// Reading the next segment begins with its prefix.
    pub open spec fn fetch_begun(before: Self, after: Self) -> bool {
        &&& after.fetch() is Prefix
        &&& after.held() == Seq::<u8>::empty()
        &&& after.available().len() == 0
        &&& after.decryptor() == before.decryptor()
        &&& after.status() == before.status()
        &&& after.taken() == before.taken()
        &&& after.opened() == before.opened()
    }

    /// The outcome of a read into `space`, which leaves `output`.
    pub open spec fn read_outcome(
        before: Self,
        after: Self,
        space: Seq<u8>,
        output: Seq<u8>,
        result: Result<ReadStep, StreamError>,
    ) -> bool {
        let count = lesser(space.len() as int, before.available().len() as int);
        if space.len() == 0 {
            &&& result == Ok::<ReadStep, StreamError>(ReadStep::Served(0))
            &&& after == before
            &&& output == space
        } else if before.status() is Failed {
            &&& result == Err::<ReadStep, StreamError>(StreamError::Poisoned)
            &&& after == before
            &&& output == space
        } else if before.available().len() > 0 {
            &&& result == Ok::<ReadStep, StreamError>(ReadStep::Served(count as usize))
            &&& Self::served_available(before, after, space, output, count)
        } else if before.status() is Finished {
            &&& result == Ok::<ReadStep, StreamError>(ReadStep::Served(0))
            &&& after == before
            &&& output == space
        } else {
            match before.fetch() {
                SegmentFetch::Ready { framing } => Self::segment_served(
                    before,
                    after,
                    framing,
                    space,
                    output,
                    result,
                ),
                SegmentFetch::Idle => {
                    &&& result == Ok::<ReadStep, StreamError>(ReadStep::Fetch)
                    &&& output == space
                    &&& Self::fetch_begun(before, after)
                },
                _ => {
                    &&& result == Ok::<ReadStep, StreamError>(ReadStep::Fetch)
                    &&& output == space
                    &&& after == before
                },
            }
        }
    }

    /// Serves authenticated plaintext into `output`, or says that a segment
    /// must be read first.
    ///
    /// After [`ReadStep::Fetch`], read from the wrapped reader into
    /// [`Self::input`] and report that with [`Self::input_read`] until
    /// [`Self::input_length`] is zero, and call this again with the same
    /// `output`.
    ///
    /// # Errors
    ///
    /// Returns an error if the reader is poisoned, or for malformed or
    /// unauthenticated ciphertext.
    pub fn read(&mut self, output: &mut [u8]) -> (result: Result<ReadStep, StreamError>)
        requires
            old(self).wf(),
        ensures
            final(self).wf(),
            Self::same_stream(*old(self), *final(self)),
            final(output)@.len() == old(output)@.len(),
            Self::read_outcome(
                *old(self),
                *final(self),
                old(output)@,
                final(output)@,
                result,
            ),
    {
        if output.len() == 0 {
            return Ok(ReadStep::Served(0));
        }
        if matches!(self.status, StreamStatus::Failed) {
            return Err(StreamError::Poisoned);
        }
        if self.plaintext_consumed < self.plaintext_available {
            return Ok(ReadStep::Served(self.serve_plaintext(output)));
        }
        if matches!(self.status, StreamStatus::Finished) {
            return Ok(ReadStep::Served(0));
        }
        match self.fetch {
            SegmentFetch::Idle => {
                self.begin_fetch();
                Ok(ReadStep::Fetch)
            },
            SegmentFetch::Prefix(_) | SegmentFetch::Body { .. } => Ok(ReadStep::Fetch),
            SegmentFetch::Ready { framing } => {
                self.read_segment(framing, output)
            },
        }
    }

    /// Decrypts the segment that is there, and serves it.
    fn read_segment(&mut self, framing: SegmentFraming, output: &mut [u8]) -> (result: Result<
        ReadStep,
        StreamError,
    >)
        requires
            old(self).wf(),
            old(self).status() is Open,
            old(self).fetch() == (SegmentFetch::Ready { framing }),
            old(self).available().len() == 0,
        ensures
            final(self).wf(),
            Self::same_stream(*old(self), *final(self)),
            final(output)@.len() == old(output)@.len(),
            Self::segment_served(
                *old(self),
                *final(self),
                framing,
                old(output)@,
                final(output)@,
                result,
            ),
    {
        if output.len() >= self.parameters().plaintext_segment_length() {
            return self.read_segment_direct(framing, output);
        }
        let ghost before = *self;
        self.load_segment(framing)?;
        let ghost piece = before.next_plaintext(framing)->Ok_0;
        if self.plaintext_consumed == self.plaintext_available {
            proof {
                assert(piece =~= Seq::empty());
                assert(output@ =~= piece.take(0) + output@.skip(0));
                assert(self.available() =~= piece.skip(0));
            }
            return Ok(ReadStep::Served(0));
        }
        let served = self.serve_plaintext(output);
        Ok(ReadStep::Served(served))
    }

    fn serve_plaintext(&mut self, output: &mut [u8]) -> (read: usize)
        requires
            old(self).wf(),
            !(old(self).status() is Failed),
            old(self).unserved().0 < old(self).unserved().1,
        ensures
            final(self).wf(),
            Self::same_stream(*old(self), *final(self)),
            final(output)@.len() == old(output)@.len(),
            read == lesser(old(output)@.len() as int, old(self).available().len() as int),
            Self::served_available(
                *old(self),
                *final(self),
                old(output)@,
                final(output)@,
                read as int,
            ),
    {
        let ghost before = *self;
        let ghost space = output@;
        let plaintext = match self.buffer.plaintext() {
            Ok(plaintext) => plaintext,
            Err(_) => {
                return 0;
            },
        };
        let left: usize = self.plaintext_available - self.plaintext_consumed;
        let read: usize = if output.len() < left {
            output.len()
        } else {
            left
        };
        let end: usize = self.plaintext_consumed + read;
        range_mut(output, 0, read).copy_from_slice(&plaintext[self.plaintext_consumed..end]);
        self.plaintext_consumed = end;
        proof {
            assert(output@ =~= before.available().take(read as int) + space.skip(read as int));
            assert(self.available() =~= before.available().skip(read as int));
            assert(self.available() =~= self.opened().skip(self.position()));
            assert(self.decrypted() =~= before.decrypted());
        }
        read
    }

    /// Prepares to read the next segment, passing over what is not served.
    fn begin_fetch(&mut self)
        requires
            old(self).wf(),
            old(self).status() is Open,
            old(self).fetch() is Idle,
        ensures
            final(self).wf(),
            Self::same_stream(*old(self), *final(self)),
            Self::fetch_begun(*old(self), *final(self)),
    {
        let ghost before = *self;
        self.plaintext_consumed = self.plaintext_available;
        self.fetch = SegmentFetch::Prefix(ReadProgress::new(SEGMENT_PREFIX_LENGTH, 0));
        proof {
            assert(self.held() =~= before.held());
            assert(self.available() =~= self.opened().skip(self.position()));
            assert(self.decrypted() =~= before.decrypted());
        }
    }

    /// Decrypts the segment that is there in the buffer.
    fn load_segment(&mut self, framing: SegmentFraming) -> (result: Result<(), StreamError>)
        requires
            old(self).wf(),
            old(self).status() is Open,
            old(self).fetch() == (SegmentFetch::Ready { framing }),
        ensures
            final(self).wf(),
            Self::same_stream(*old(self), *final(self)),
            match old(self).next_plaintext(framing) {
                Ok(piece) => {
                    &&& result is Ok
                    &&& Self::segment_opened(*old(self), *final(self), framing, piece)
                    &&& final(self).available() == piece
                },
                Err(error) => {
                    &&& final(self).status() is Failed
                    &&& result == Err::<(), StreamError>(StreamError::Decryption(error))
                },
            },
    {
        let ghost before = *self;
        let mut decryptor = match self.decryptor.take() {
            Some(decryptor) => decryptor,
            None => {
                return Err(StreamError::Poisoned);
            },
        };
        proof {
            decryptor.lemma_next_position();
        }
        let length: usize = match decryptor.decrypt_segment_in_place(&mut self.buffer) {
            Ok(plaintext) => plaintext.len(),
            Err(error) => {
                self.status = StreamStatus::Failed;
                return Err(StreamError::Decryption(error));
            },
        };
        if let Err(error) = self.finish_if_final(decryptor, framing) {
            return Err(error);
        }
        self.fetch = SegmentFetch::Idle;
        self.plaintext_consumed = 0;
        self.plaintext_available = length;
        proof {
            let piece = before.next_plaintext(framing)->Ok_0;
            self.opened@ = self.opened@ + piece;
            self.lemma_segment_added(before, framing, piece);
            assert(self.available() =~= piece);
            assert(self.available() =~= self.opened().skip(self.position()));
        }
        Ok(())
    }

    /// Keeps the decryptor of an open message, or marks the message complete.
    fn finish_if_final(&mut self, decryptor: Decryptor, framing: SegmentFraming) -> (result: Result<
        (),
        StreamError,
    >)
        requires
            framing.kind() is Final ==> decryptor.counter().closed,
        ensures
            result is Ok,
            Self::same_stream(*old(self), *final(self)),
            final(self).buffer() == old(self).buffer(),
            final(self).unserved() == old(self).unserved(),
            final(self).prefix() == old(self).prefix(),
            final(self).fetch() == old(self).fetch(),
            final(self).taken() == old(self).taken(),
            final(self).opened() == old(self).opened(),
            if framing.kind() is Final {
                final(self).status() is Finished
            } else {
                &&& final(self).status() == old(self).status()
                &&& final(self).decryptor() == Some(decryptor)
            },
    {
        if framing.is_final() {
            if let Err(error) = decryptor.finish() {
                return Err(StreamError::Decryption(error));
            }
            self.status = StreamStatus::Finished;
        } else {
            self.decryptor = Some(decryptor);
        }
        Ok(())
    }

    /// Decrypts the next segment straight into the caller's buffer, skipping
    /// the in-place open plus copy-out that sub-segment reads require.
    fn read_segment_direct(&mut self, framing: SegmentFraming, output: &mut [u8]) -> (result:
        Result<ReadStep, StreamError>)
        requires
            old(self).wf(),
            old(self).status() is Open,
            old(self).fetch() == (SegmentFetch::Ready { framing }),
            old(self).available().len() == 0,
            old(output)@.len() >= old(self).session().parameters.payload_length(),
        ensures
            final(self).wf(),
            Self::same_stream(*old(self), *final(self)),
            final(output)@.len() == old(output)@.len(),
            Self::segment_served(
                *old(self),
                *final(self),
                framing,
                old(output)@,
                final(output)@,
                result,
            ),
    {
        let ghost before = *self;
        let ghost space = output@;
        let mut decryptor = match self.decryptor.take() {
            Some(decryptor) => decryptor,
            None => {
                return Err(StreamError::Poisoned);
            },
        };
        proof {
            decryptor.lemma_next_position();
        }
        let ciphertext = match self.buffer.ciphertext() {
            Ok(ciphertext) => ciphertext,
            Err(error) => {
                return Err(StreamError::Decryption(error));
            },
        };
        let written: usize = match decryptor.decrypt_segment_into_framed(
            ciphertext,
            framing,
            output,
        ) {
            Ok(written) => written,
            Err(error) => {
                self.status = StreamStatus::Failed;
                return Err(StreamError::Decryption(error));
            },
        };
        if let Err(error) = self.finish_if_final(decryptor, framing) {
            return Err(error);
        }
        self.fetch = SegmentFetch::Idle;
        self.plaintext_consumed = 0;
        self.plaintext_available = 0;
        proof {
            let piece = before.next_plaintext(framing)->Ok_0;
            self.opened@ = self.opened@ + piece;
            self.lemma_segment_added(before, framing, piece);
            assert(piece.take(written as int) =~= piece);
            assert(self.available() =~= piece.skip(written as int));
            assert(self.available() =~= self.opened().skip(self.position()));
        }
        Ok(ReadStep::Served(written))
    }

    /// One more segment keeps what was authenticated true to what was read.
    proof fn lemma_segment_added(&self, before: Self, framing: SegmentFraming, piece: Seq<u8>)
        requires
            before.wf(),
            before.status() is Open,
            before.fetch() == (SegmentFetch::Ready { framing }),
            before.decryptor()->0.counter().wf(),
            before.next_plaintext(framing) == Ok::<Seq<u8>, Error>(piece),
            self.session() == before.session(),
            self.taken() == before.taken(),
            self.opened() == before.opened() + piece,
            self.fetch() is Idle,
        ensures
            framing.kind() is Final ==> self.complete(),
            self.held().len() <= self.taken().len(),
            self.taken() == self.decrypted() + self.held(),
            framing.kind() is NonFinal ==> opens_with(
                self.session(),
                self.decrypted(),
                self.opened(),
                before.decryptor()->0.counter().advanced(SegmentKind::NonFinal),
            ),
            framing.kind() is NonFinal ==> full_segments(
                self.session().parameters,
                before.decryptor()->0.counter().advanced(SegmentKind::NonFinal),
                self.decrypted().len() as int,
                self.opened().len() as int,
            ),
    {
        let segment = before.buffer().ciphertext_view()->0;
        lemma_full_segments(
            before.session().parameters,
            before.decryptor()->0.counter(),
            before.decrypted().len() as int,
            before.opened().len() as int,
            0,
        );
        lemma_opened_length(
            before.session().segment_key(before.decryptor()->0.counter().next),
            segment_nonce(segment),
            segment_aad(before.decryptor()->0.counter().next, framing.kind()),
            segment.skip(SEGMENT_PAYLOAD_OFFSET as int),
        );
        lemma_opens_with_segment(
            before.session(),
            before.decrypted(),
            before.opened(),
            before.decryptor()->0.counter(),
            segment,
            piece,
        );
        assert(self.decrypted() =~= before.decrypted() + segment);
        assert(self.taken() =~= self.decrypted() + self.held());
    }

    /// The outcome of authenticating the unread remainder of the message, as
    /// far as it is there.
    pub open spec fn drained(before: Self, after: Self, result: Result<DrainStep, StreamError>) -> bool {
        match before.status() {
            StreamStatus::Failed => {
                &&& result == Err::<DrainStep, StreamError>(StreamError::Poisoned)
                &&& after == before
            },
            StreamStatus::Finished => {
                &&& result == Ok::<DrainStep, StreamError>(DrainStep::Done)
                &&& after.status() is Finished
                &&& after.available().len() == 0
                &&& after.taken() == before.taken()
                &&& after.opened() == before.opened()
            },
            StreamStatus::Open => match before.fetch() {
                SegmentFetch::Idle => {
                    &&& result == Ok::<DrainStep, StreamError>(DrainStep::Fetch)
                    &&& Self::fetch_begun(before, after)
                },
                SegmentFetch::Ready { framing } => match before.next_plaintext(framing) {
                    Err(error) => {
                        &&& result == Err::<DrainStep, StreamError>(StreamError::Decryption(error))
                        &&& after.status() is Failed
                    },
                    Ok(piece) => {
                        &&& after.opened() == before.opened() + piece
                        &&& after.taken() == before.taken()
                        &&& after.available().len() == 0
                        &&& if framing.kind() is Final {
                            &&& result == Ok::<DrainStep, StreamError>(DrainStep::Done)
                            &&& after.status() is Finished
                        } else {
                            &&& result == Ok::<DrainStep, StreamError>(DrainStep::Fetch)
                            &&& after.status() is Open
                            &&& after.fetch() is Prefix
                            &&& after.decryptor()->0.counter()
                                == before.decryptor()->0.counter().advanced(SegmentKind::NonFinal)
                        }
                    },
                },
                _ => {
                    &&& result == Ok::<DrainStep, StreamError>(DrainStep::Fetch)
                    &&& after == before
                },
            },
        }
    }

    /// Authenticates the unread remainder of the message, as far as it is
    /// there, and passes over its plaintext.
    ///
    /// After [`DrainStep::Fetch`], read from the wrapped reader as for
    /// [`Self::read`], and call this again. After [`DrainStep::Done`] the
    /// wrapped reader is positioned exactly after the final segment. This is
    /// idempotent after success. After an error, the reader is poisoned because
    /// invalid input may have been partially consumed.
    ///
    /// # Errors
    ///
    /// Returns an error for malformed or unauthenticated unread ciphertext.
    pub fn try_finish_frame(&mut self) -> (result: Result<DrainStep, StreamError>)
        requires
            old(self).wf(),
        ensures
            final(self).wf(),
            Self::same_stream(*old(self), *final(self)),
            Self::drained(*old(self), *final(self), result),
    {
        let ghost before = *self;
        match self.status {
            StreamStatus::Failed => Err(StreamError::Poisoned),
            StreamStatus::Finished => {
                self.plaintext_consumed = self.plaintext_available;
                assert(self.available() =~= self.opened().skip(self.position()));
                Ok(DrainStep::Done)
            },
            StreamStatus::Open => match self.fetch {
                SegmentFetch::Idle => {
                    self.begin_fetch();
                    Ok(DrainStep::Fetch)
                },
                SegmentFetch::Prefix(_) | SegmentFetch::Body { .. } => Ok(DrainStep::Fetch),
                SegmentFetch::Ready { framing } => {
                    self.load_segment(framing)?;
                    if framing.is_final() {
                        self.plaintext_consumed = self.plaintext_available;
                        assert(self.available() =~= self.opened().skip(self.position()));
                        Ok(DrainStep::Done)
                    } else {
                        self.begin_fetch();
                        Ok(DrainStep::Fetch)
                    }
                },
            },
        }
    }

    /// The outcome of requiring the underlying stream to end, given how many
    /// bytes followed.
    pub open spec fn finishing(
        before: Self,
        after: Self,
        trailing: usize,
        result: Result<(), StreamError>,
    ) -> bool {
        if trailing == 0 {
            &&& result == Ok::<(), StreamError>(())
            &&& after == before
        } else {
            &&& result == Err::<(), StreamError>(StreamError::TrailingData)
            &&& after.status() is Failed
        }
    }

    /// Finishes a message that [`Self::try_finish_frame`] is done with, given
    /// how many bytes were read when one more was asked for: the underlying
    /// stream is required to end with the message.
    ///
    /// # Errors
    ///
    /// Returns an error, and poisons the reader, if a byte follows the
    /// authenticated final segment.
    pub fn try_finish(&mut self, trailing: usize) -> (result: Result<(), StreamError>)
        requires
            old(self).wf(),
            old(self).status() is Finished,
        ensures
            final(self).wf(),
            Self::same_stream(*old(self), *final(self)),
            Self::finishing(*old(self), *final(self), trailing, result),
    {
        if trailing == 0 {
            return Ok(());
        }
        self.status = StreamStatus::Failed;
        Err(StreamError::TrailingData)
    }

    /// The state once `bytes` are where input is read to.
    pub open spec fn input_filled(before: Self, after: Self, bytes: Seq<u8>) -> bool {
        &&& after.wf()
        &&& after.target() =~= bytes
        &&& after.held() == before.held()
        &&& after.available() == before.available()
    }

    /// Returns how many ciphertext bytes are to be read next at most. There are
    /// none to read where this is zero.
    pub fn input_length(&self) -> (length: usize)
        requires
            self.wf(),
            !(self.status() is Failed),
        ensures
            self.status() is Open ==> length == self.target().len(),
            self.status() is Finished ==> length == 0,
    {
        match self.fetch {
            SegmentFetch::Prefix(progress) | SegmentFetch::Body { progress, .. } => {
                progress.required() - progress.filled()
            },
            SegmentFetch::Idle | SegmentFetch::Ready { .. } => 0,
        }
    }

    /// Returns the wrapped reader, and where the next ciphertext bytes from it
    /// are to be read to.
    pub fn input(&mut self) -> (parts: (&mut R, &mut [u8]))
        requires
            old(self).wf(),
            old(self).status() is Open,
        ensures
            *parts.0 == old(self).inner(),
            parts.1@ == old(self).target(),
            final(self).inner() == *final(parts.0),
            Self::same_progress(*old(self), *final(self)),
            final(parts.1)@.len() == parts.1@.len() ==> Self::input_filled(
                *old(self),
                *final(self),
                final(parts.1)@,
            ),
    {
        match self.fetch {
            SegmentFetch::Prefix(progress) => {
                (&mut self.inner, tail_mut(&mut self.prefix, progress.filled()))
            },
            SegmentFetch::Body { progress, .. } => {
                (&mut self.inner, self.buffer.ciphertext_from(progress.filled()))
            },
            SegmentFetch::Idle | SegmentFetch::Ready { .. } => {
                (&mut self.inner, tail_mut(&mut self.prefix, SEGMENT_PREFIX_LENGTH))
            },
        }
    }

    /// The error, if any, of reading `read` more bytes of the next segment:
    /// the wrapped reader ends inside the segment, or the prefix is invalid.
    pub open spec fn input_error(&self, read: int) -> Option<Error> {
        match self.fetch() {
            SegmentFetch::Prefix(progress) => if read == 0 {
                Some(Error::Truncated)
            } else if read == self.target().len() {
                SegmentFraming::error(
                    self.session().parameters,
                    crate::bytes::from_be32(self.prefix()),
                )
            } else {
                None
            },
            SegmentFetch::Body { framing, progress } => if read == 0 {
                segment_read_error(progress.filled(), framing.ciphertext_length())
            } else {
                None
            },
            _ => None,
        }
    }

    /// The state once `read` more bytes of the next segment are there.
    pub open spec fn input_advanced(before: Self, after: Self, read: int) -> bool {
        &&& after.decryptor() == before.decryptor()
        &&& after.status() is Open
        &&& after.opened() == before.opened()
        &&& after.available() == before.available()
        &&& after.taken() == before.taken() + before.target().take(read)
        &&& after.decrypted() == before.decrypted()
        &&& match before.fetch() {
            SegmentFetch::Prefix(_) => if read == before.target().len() {
                after.fetch() matches SegmentFetch::Body { framing, .. } && framing.declared_by(
                    before.session().parameters,
                    crate::bytes::from_be32(before.prefix()),
                ) && after.target().len() == framing.ciphertext_length() - SEGMENT_PREFIX_LENGTH
            } else {
                after.fetch() is Prefix && after.target() == before.target().skip(read)
            },
            SegmentFetch::Body { framing, .. } => if read == before.target().len() {
                after.fetch() == (SegmentFetch::Ready { framing })
            } else {
                after.fetch() is Body && after.target() == before.target().skip(read)
            },
            _ => after == before,
        }
    }

    /// The outcome of reading `read` more bytes of the next segment.
    pub open spec fn input_recorded(
        before: Self,
        after: Self,
        read: int,
        result: Result<(), StreamError>,
    ) -> bool {
        match before.input_error(read) {
            Some(error) => {
                &&& result == Err::<(), StreamError>(StreamError::Decryption(error))
                &&& after.status() is Failed
            },
            None => {
                &&& result is Ok
                &&& Self::input_advanced(before, after, read)
            },
        }
    }

    /// Records that `read` bytes were read to the start of [`Self::input`].
    /// None means that the wrapped reader has ended.
    ///
    /// # Errors
    ///
    /// Returns an error, and poisons the reader, if the wrapped reader has
    /// ended inside the message, or the prefix of the segment is invalid.
    pub fn input_read(&mut self, read: usize) -> (result: Result<(), StreamError>)
        requires
            old(self).wf(),
            old(self).status() is Open,
            read <= old(self).target().len(),
        ensures
            final(self).wf(),
            Self::same_stream(*old(self), *final(self)),
            Self::input_recorded(*old(self), *final(self), read as int, result),
    {
        let ghost before = *self;
        match self.fetch {
            SegmentFetch::Idle | SegmentFetch::Ready { .. } => {
                assert(self.taken() =~= before.taken() + before.target().take(read as int));
                Ok(())
            },
            SegmentFetch::Prefix(progress) => self.prefix_read(progress, read),
            SegmentFetch::Body { framing, progress } => self.body_read(framing, progress, read),
        }
    }

    fn prefix_read(&mut self, progress: ReadProgress, read: usize) -> (result: Result<
        (),
        StreamError,
    >)
        requires
            old(self).wf(),
            old(self).status() is Open,
            old(self).fetch() == SegmentFetch::Prefix(progress),
            read <= old(self).target().len(),
        ensures
            final(self).wf(),
            Self::same_stream(*old(self), *final(self)),
            Self::input_recorded(*old(self), *final(self), read as int, result),
    {
        let ghost before = *self;
        let mut progress = progress;
        progress.advance(read);
        proof {
            self.taken@ = self.taken@ + before.target().take(read as int);
        }
        if !progress.is_done() {
            self.fetch = SegmentFetch::Prefix(progress);
            proof {
                self.lemma_input_read(before, read as int);
                assert(self.target() =~= before.target().skip(read as int));
            }
            return Ok(());
        }
        if progress.filled() != SEGMENT_PREFIX_LENGTH {
            self.status = StreamStatus::Failed;
            return Err(StreamError::Decryption(Error::Truncated));
        }
        let framing = match SegmentFraming::decode(self.buffer.parameters(), self.prefix) {
            Ok(framing) => framing,
            Err(error) => {
                self.status = StreamStatus::Failed;
                return Err(StreamError::Decryption(error));
            },
        };
        let length = framing.ciphertext_length();
        match self.buffer.prepare_ciphertext(length) {
            Ok(ciphertext) => {
                range_mut(ciphertext, 0, SEGMENT_PREFIX_LENGTH).copy_from_slice(&self.prefix);
            },
            Err(error) => {
                self.status = StreamStatus::Failed;
                return Err(StreamError::Decryption(error));
            },
        }
        self.fetch = SegmentFetch::Body {
            framing,
            progress: ReadProgress::new(length, SEGMENT_PREFIX_LENGTH),
        };
        proof {
            let view = self.buffer().ciphertext_view()->0;
            assert(view.take(SEGMENT_PREFIX_LENGTH as int) =~= self.prefix());
            assert(before.held() + before.target().take(read as int) =~= self.prefix());
            self.lemma_input_read(before, read as int);
        }
        Ok(())
    }

    fn body_read(&mut self, framing: SegmentFraming, progress: ReadProgress, read: usize) -> (
    result: Result<(), StreamError>)
        requires
            old(self).wf(),
            old(self).status() is Open,
            old(self).fetch() == (SegmentFetch::Body { framing, progress }),
            read <= old(self).target().len(),
        ensures
            final(self).wf(),
            Self::same_stream(*old(self), *final(self)),
            Self::input_recorded(*old(self), *final(self), read as int, result),
    {
        let ghost before = *self;
        let mut progress = progress;
        progress.advance(read);
        proof {
            self.taken@ = self.taken@ + before.target().take(read as int);
        }
        if !progress.is_done() {
            self.fetch = SegmentFetch::Body { framing, progress };
            proof {
                self.lemma_input_read(before, read as int);
                assert(self.target() =~= before.target().skip(read as int));
            }
            return Ok(());
        }
        if let Err(error) = complete_segment(progress.filled(), framing.ciphertext_length()) {
            self.status = StreamStatus::Failed;
            return Err(StreamError::Decryption(error));
        }
        self.fetch = SegmentFetch::Ready { framing };
        proof {
            self.lemma_input_read(before, read as int);
        }
        Ok(())
    }

    /// What is read is held until its segment is complete.
    proof fn lemma_input_read(&self, before: Self, read: int)
        requires
            before.wf(),
            before.status() is Open,
            before.unserved().0 == before.unserved().1,
            0 <= read <= before.target().len(),
            self.session() == before.session(),
            self.decryptor() == before.decryptor(),
            self.unserved() == before.unserved(),
            self.opened() == before.opened(),
            self.taken() == before.taken() + before.target().take(read),
            self.held() =~= before.held() + before.target().take(read),
        ensures
            self.continues(),
            self.serving_wf(),
            self.decrypted() == before.decrypted(),
    {
        assert(self.decrypted() =~= before.decrypted());
        assert(self.taken() =~= self.decrypted() + self.held());
        assert(self.available() =~= self.opened().skip(self.position()));
    }

    /// Records that reading the wrapped reader failed, after which this reader
    /// is unusable.
    pub fn input_failed(&mut self)
        requires
            old(self).wf(),
        ensures
            final(self).wf(),
            final(self).inner() == old(self).inner(),
            final(self).status() is Failed,
    {
        self.status = StreamStatus::Failed;
    }

    /// Consumes this reader, with what finalization came to, and returns the
    /// wrapped reader.
    ///
    /// # Errors
    ///
    /// Returns the error of finalization along with the wrapped reader, which
    /// may be positioned after partially consumed invalid input.
    pub fn finish<E>(self, result: Result<(), E>) -> (outcome: Result<R, FinishError<R, E>>)
        ensures
            FinishError::<R, E>::wrapped(result, self.inner(), outcome),
    {
        FinishError::wrap(result, self.inner)
    }
}

} // verus!
