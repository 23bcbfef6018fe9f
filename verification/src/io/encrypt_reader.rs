use crate::buffer::SegmentBuffer;
use crate::bytes::range_mut;
use crate::counter::SegmentCounter;
use crate::error::Error;
use crate::header::Header;
use crate::io::{lesser, ReadStep, StreamError, StreamStatus};
use crate::key::Key;
use crate::message::{
    body_decrypted, full_segments, lemma_body_completes_message, lemma_full_segments,
    lemma_opens_with_encrypted, lemma_opens_with_nothing, message_decrypted, opens_with,
};
use crate::model::{header, header_iv, session, Session};
use crate::online::Encryptor;
use crate::parameters::{Parameters, SegmentKind, HEADER_LENGTH, SEGMENT_OVERHEAD};
use crate::state::{left_by, nonces_used};
use crate::wire::ReadProgress;
use vstd::prelude::*;

verus! {

/// How far an [`EncryptReader`] is in reading the plaintext of its next
/// segment.
#[derive(Clone, Copy, Debug, PartialEq, Eq, Structural)]
pub enum PlaintextFetch {
    /// It is not reading.
    Idle,
    /// It reads the plaintext of the segment.
    Plaintext(ReadProgress),
    /// The plaintext fills the segment, and it looks one byte ahead to see
    /// whether more follows.
    Lookahead(ReadProgress),
    /// The plaintext of the segment is there.
    Ready { is_final: bool },
}

/// A bounded-memory FLOE encrypting reader.
///
/// This pull-side adapter avoids the weakened flush semantics inherent in an
/// encrypting writer. Read it to its end to obtain the complete header,
/// encrypted body, and authenticated final segment.
///
/// Dropping the adapter or calling [`Self::into_inner_unfinished`] before
/// [`Self::is_finished`] is true abandons the incomplete ciphertext stream.
pub struct EncryptReader<R> {
    inner: R,
    encryptor: Option<Encryptor>,
    header: Header,
    header_position: usize,
    buffer: SegmentBuffer,
    ciphertext_position: usize,
    ciphertext_length: usize,
    lookahead: Option<u8>,
    trailing: [u8; 1],
    fetch: PlaintextFetch,
    status: StreamStatus,
    session: Ghost<Session>,
    source: Ghost<Seq<u8>>,
    emitted: Ghost<Seq<u8>>,
}

impl<R> EncryptReader<R> {
    /// The wrapped reader.
    pub closed spec fn inner(&self) -> R {
        self.inner
    }

    /// What encrypts the next segment, while the message is open.
    pub closed spec fn encryptor(&self) -> Option<Encryptor> {
        self.encryptor
    }

    pub closed spec fn spec_header(&self) -> Header {
        self.header
    }

    /// How much of the header was served.
    pub closed spec fn header_position(&self) -> int {
        self.header_position as int
    }

    /// The storage for one segment.
    pub closed spec fn buffer(&self) -> SegmentBuffer {
        self.buffer
    }

    /// The part of the buffered segment that was not served yet.
    pub closed spec fn unserved(&self) -> (int, int) {
        (self.ciphertext_position as int, self.ciphertext_length as int)
    }

    /// The plaintext byte that was read ahead.
    pub closed spec fn lookahead(&self) -> Option<u8> {
        self.lookahead
    }

    /// The storage for a byte that is read ahead.
    pub closed spec fn trailing(&self) -> Seq<u8> {
        self.trailing@
    }

    /// How far reading the next plaintext is.
    pub closed spec fn fetch(&self) -> PlaintextFetch {
        self.fetch
    }

    /// Whether this reader can still be used.
    pub closed spec fn status(&self) -> StreamStatus {
        self.status
    }

    /// What the message is encrypted with.
    pub closed spec fn session(&self) -> Session {
        self.session@
    }

    /// All the plaintext that was read from the wrapped reader.
    pub closed spec fn source(&self) -> Seq<u8> {
        self.source@
    }

    /// All the ciphertext that was produced, from the header on.
    pub closed spec fn emitted(&self) -> Seq<u8> {
        self.emitted@
    }

    /// The ciphertext that was produced and not served yet.
    pub open spec fn available(&self) -> Seq<u8> {
        if self.header_position() < HEADER_LENGTH {
            self.spec_header()@.skip(self.header_position())
        } else if self.unserved().0 < self.unserved().1 {
            self.buffer().ciphertext_view()->0.skip(self.unserved().0)
        } else {
            Seq::empty()
        }
    }

    /// The ciphertext that was served.
    pub open spec fn served(&self) -> Seq<u8> {
        self.emitted().take(self.emitted().len() - self.available().len())
    }

    /// The plaintext that was read and is not encrypted yet.
    pub open spec fn held(&self) -> Seq<u8> {
        let ahead = match self.lookahead() {
            Some(byte) => seq![byte],
            None => Seq::empty(),
        };
        match self.fetch() {
            PlaintextFetch::Idle => ahead,
            PlaintextFetch::Plaintext(progress) => self.buffer().plaintext_view()->0.take(
                progress.filled() as int,
            ),
            PlaintextFetch::Lookahead(_) => self.buffer().plaintext_view()->0,
            PlaintextFetch::Ready { .. } => self.buffer().plaintext_view()->0 + ahead,
        }
    }

    /// The plaintext that is encrypted.
    pub open spec fn encrypted(&self) -> Seq<u8> {
        self.source().take(self.source().len() - self.held().len())
    }

    /// Where the next plaintext bytes are to be read to.
    pub open spec fn target(&self) -> Seq<u8> {
        match self.fetch() {
            PlaintextFetch::Plaintext(progress) => self.buffer().plaintext_view()->0.skip(
                progress.filled() as int,
            ),
            PlaintextFetch::Lookahead(_) => self.trailing(),
            _ => Seq::empty(),
        }
    }

    /// What reading plaintext has left in the buffer and in the byte read
    /// ahead.
    pub open spec fn fetch_wf(&self) -> bool {
        let capacity = self.session().parameters.payload_length();
        match self.fetch() {
            PlaintextFetch::Idle => true,
            PlaintextFetch::Plaintext(progress) => {
                &&& self.buffer().plaintext_view() is Some
                &&& self.buffer().plaintext_view()->0.len() == capacity
                &&& progress.required() == capacity
                &&& progress.filled() < capacity
                &&& !progress.ended()
                &&& self.lookahead() is None
            },
            PlaintextFetch::Lookahead(progress) => {
                &&& self.buffer().plaintext_view() is Some
                &&& self.buffer().plaintext_view()->0.len() == capacity
                &&& progress.required() == 1
                &&& progress.filled() == 0
                &&& !progress.ended()
                &&& self.lookahead() is None
            },
            PlaintextFetch::Ready { is_final } => {
                &&& self.buffer().plaintext_view() is Some
                &&& self.lookahead() is None <==> is_final
                &&& !is_final ==> self.buffer().plaintext_view()->0.len() == capacity
            },
        }
    }

    /// What was produced ends with what is still to be served. While the
    /// message is open, its segments are full and give the plaintext that is
    /// encrypted, and the rest of the plaintext, of which there is some after a
    /// segment, is held. A generator that can be seeded is
    /// seeded since the IV was drawn. Once it is complete, it decrypts to
    /// all the plaintext that was read.
    pub open spec fn wf(&self) -> bool {
        &&& self.session().parameters.wf()
        &&& self.buffer().wf()
        &&& self.buffer().parameters() == self.session().parameters
        &&& self.trailing().len() == 1
        &&& 0 <= self.header_position() <= HEADER_LENGTH
        &&& self.emitted().len() >= HEADER_LENGTH
        &&& self.emitted().take(HEADER_LENGTH as int) == self.spec_header()@
        &&& self.status() is Failed || self.serving_wf() && match self.status() {
            StreamStatus::Finished => self.complete(),
            _ => self.fetch_wf() && self.continues(),
        }
    }

    /// What is to be served is there.
    pub open spec fn serving_wf(&self) -> bool {
        &&& self.header_position() < HEADER_LENGTH ==> self.fetch() is Idle && self.unserved().0
            == self.unserved().1
        &&& self.status() is Finished ==> self.header_position() == HEADER_LENGTH
        &&& 0 <= self.unserved().0 <= self.unserved().1
        &&& self.unserved().0 < self.unserved().1 ==> self.fetch() is Idle
            && self.buffer().ciphertext_view() is Some
            && self.buffer().ciphertext_view()->0.len() == self.unserved().1
        &&& self.available().len() <= self.emitted().len()
        &&& self.emitted() == self.served() + self.available()
    }

    /// The message is open.
    pub open spec fn continues(&self) -> bool {
        &&& self.encryptor() matches Some(encryptor)
        &&& encryptor.wf()
        &&& encryptor.session() == self.session()
        &&& encryptor.provider() is RustCrypto ==> encryptor.nonces().seeded
        &&& self.held().len() <= self.source().len()
        &&& self.source() == self.encrypted() + self.held()
        &&& opens_with(
            self.session(),
            self.emitted().skip(HEADER_LENGTH as int),
            self.encrypted(),
            encryptor.counter(),
        )
        &&& full_segments(
            self.session().parameters,
            encryptor.counter(),
            self.emitted().len() - HEADER_LENGTH,
            self.encrypted().len() as int,
        )
        &&& encryptor.counter().next > 0 ==> self.held().len() > 0
    }

    /// The message is complete, and has the length that a layout of its
    /// plaintext has.
    pub open spec fn complete(&self) -> bool {
        &&& body_decrypted(
            self.session(),
            SegmentCounter::start(),
            self.emitted().skip(HEADER_LENGTH as int),
        ) == Ok::<Seq<u8>, Error>(self.source())
        &&& self.emitted().len() == self.session().parameters.message_length(
            self.source().len() as int,
        )
    }

    /// Both are states of one stream.
    pub open spec fn same_stream(before: Self, after: Self) -> bool {
        &&& after.inner() == before.inner()
        &&& after.spec_header() == before.spec_header()
        &&& after.session() == before.session()
    }

    /// The ciphertext that a finished reader has served decrypts, under the key
    /// and associated data that the reader was made with, to all the plaintext
    /// that it has read.
    pub proof fn lemma_finished_message_decrypts(
        &self,
        key: Seq<u8>,
        aad: Seq<u8>,
        parameters: Parameters,
        iv: Seq<u8>,
    )
        requires
            self.wf(),
            self.status() is Finished,
            self.available().len() == 0,
            self.session() == session(key, parameters, iv, aad),
            self.spec_header()@ == header(key, parameters, iv, aad),
            iv == header_iv(self.spec_header()@),
        ensures
            message_decrypted(key, aad, self.served()) == Ok::<Seq<u8>, Error>(self.source()),
    {
        lemma_body_completes_message(key, aad, parameters, iv, self.emitted());
        assert(self.served() =~= self.emitted());
    }

    /// Nothing was read yet, and the header is available.
    pub open spec fn fresh(&self) -> bool {
        &&& self.wf()
        &&& self.status() is Open
        &&& self.fetch() is Idle
        &&& self.source() == Seq::<u8>::empty()
        &&& self.emitted() == self.spec_header()@
        &&& self.available() == self.spec_header()@
    }

    /// The message is encrypted under `key`, with `parameters` and `aad`.
    pub open spec fn made_for(&self, key: Seq<u8>, parameters: Parameters, aad: Seq<u8>) -> bool {
        let iv = header_iv(self.spec_header()@);
        &&& self.session() == session(key, parameters, iv, aad)
        &&& self.spec_header()@ == header(key, parameters, iv, aad)
    }

    /// Creates a pull-side encrypting reader.
    ///
    /// # Errors
    ///
    /// Returns an error for encryption initialization or random-generation
    /// failure.
    pub fn new(inner: R, key: &Key, aad: &[u8], parameters: Parameters) -> (result: Result<
        Self,
        StreamError,
    >)
        ensures
            match key.resolved() {
                None => result is Err && result->Err_0 == StreamError::Encryption(
                    Error::ProviderSelectionRequired,
                ),
                Some(provider) => match result {
                    Ok(reader) => {
                        &&& reader.fresh()
                        &&& reader.made_for(key@, parameters, aad@)
                        &&& reader.inner() == inner
                        &&& reader.encryptor()->0.counter() == SegmentCounter::start()
                        &&& reader.encryptor()->0.provider() == provider
                        &&& reader.encryptor()->0.nonces().is_spent()
                    },
                    Err(error) => error == StreamError::Encryption(Error::RngFailure),
                },
            },
    {
        let encryptor = match Encryptor::new(key, aad, parameters) {
            Ok(encryptor) => encryptor,
            Err(error) => {
                return Err(StreamError::Encryption(error));
            },
        };
        let header = *encryptor.header();
        let ghost session = encryptor.session();
        proof {
            header.lemma_length();
            assert(header@.skip(HEADER_LENGTH as int) =~= Seq::empty());
            assert(header@.take(HEADER_LENGTH as int) =~= header@);
            assert(header@.skip(0) =~= header@);
            lemma_opens_with_nothing(session);
            assert(0 * parameters.segment_length() == 0 && 0 * parameters.payload_length() == 0);
        }
        let reader = Self {
            inner,
            encryptor: Some(encryptor),
            header,
            header_position: 0,
            buffer: SegmentBuffer::new(parameters),
            ciphertext_position: 0,
            ciphertext_length: 0,
            lookahead: None,
            trailing: [0; 1],
            fetch: PlaintextFetch::Idle,
            status: StreamStatus::Open,
            session: Ghost(session),
            source: Ghost(Seq::empty()),
            emitted: Ghost(header@),
        };
        assert(reader.emitted() =~= reader.served() + reader.available());
        assert(reader.encrypted() =~= Seq::empty());
        assert(reader.source() =~= reader.encrypted() + reader.held());
        Ok(reader)
    }

    /// Returns the authenticated header served at the start of this reader.
    pub fn header(&self) -> (header: &Header)
        ensures
            *header == self.spec_header(),
    {
        &self.header
    }

    /// Returns this reader's parameter set.
    pub fn parameters(&self) -> (parameters: Parameters)
        requires
            self.wf(),
        ensures
            parameters == self.session().parameters,
    {
        self.buffer.parameters()
    }

    /// Returns a shared reference to the wrapped plaintext reader.
    pub fn get_ref(&self) -> (inner: &R)
        ensures
            *inner == self.inner(),
    {
        &self.inner
    }

    /// Everything but the wrapped reader and the storage for input is the same.
    pub open spec fn same_progress(before: Self, after: Self) -> bool {
        &&& after.encryptor() == before.encryptor()
        &&& after.spec_header() == before.spec_header()
        &&& after.header_position() == before.header_position()
        &&& after.unserved() == before.unserved()
        &&& after.lookahead() == before.lookahead()
        &&& after.fetch() == before.fetch()
        &&& after.status() == before.status()
        &&& after.session() == before.session()
        &&& after.source() == before.source()
        &&& after.emitted() == before.emitted()
    }

    /// Returns a mutable reference to the wrapped plaintext reader.
    ///
    /// Reading plaintext directly can corrupt the encryption stream.
    pub fn get_mut(&mut self) -> (inner: &mut R)
        ensures
            *inner == old(self).inner(),
            final(self).inner() == *final(inner),
            Self::same_progress(*old(self), *final(self)),
            final(self).buffer() == old(self).buffer(),
            final(self).trailing() == old(self).trailing(),
    {
        &mut self.inner
    }

    /// Returns whether the complete final segment was served to the caller.
    pub fn is_finished(&self) -> (finished: bool)
        requires
            self.wf(),
        ensures
            finished == (self.status() is Finished && self.available().len() == 0),
    {
        matches!(self.status, StreamStatus::Finished) && self.ciphertext_position
            == self.ciphertext_length
    }

    /// The outcome of a read of which `count` bytes were there to be served.
    pub open spec fn served_available(
        before: Self,
        after: Self,
        space: Seq<u8>,
        output: Seq<u8>,
        count: int,
    ) -> bool {
        &&& output == before.available().take(count) + space.skip(count)
        &&& after.available() == before.available().skip(count)
        &&& after.encryptor() == before.encryptor()
        &&& after.fetch() == before.fetch()
        &&& after.held() == before.held()
        &&& after.status() == before.status()
        &&& after.source() == before.source()
        &&& after.emitted() == before.emitted()
    }

    /// The outcome of producing a segment from the plaintext that is there, and
    /// serving it.
    pub open spec fn segment_served(
        before: Self,
        after: Self,
        is_final: bool,
        space: Seq<u8>,
        output: Seq<u8>,
        result: Result<ReadStep, StreamError>,
    ) -> bool {
        let counter = before.encryptor()->0.counter();
        let kind = if is_final {
            SegmentKind::Final
        } else {
            SegmentKind::NonFinal
        };
        match result {
            Ok(step) => {
                let segment = after.emitted().skip(before.emitted().len() as int);
                let count = lesser(space.len() as int, segment.len() as int);
                &&& Self::segment_produced(before, after, is_final, segment)
                &&& step == ReadStep::Served(count as usize)
                &&& output == segment.take(count) + space.skip(count)
                &&& after.available() == segment.skip(count)
            },
            Err(error) => {
                &&& after.status() is Failed
                &&& match counter.error(kind) {
                    Some(limit) => {
                        &&& error == StreamError::Encryption(limit)
                        &&& output == space
                    },
                    None => {
                        &&& error == StreamError::Encryption(Error::RngFailure)
                        &&& !before.encryptor()->0.nonces().is_sure()
                        &&& output == if space.len() < before.session().parameters.segment_length() {
                            space
                        } else {
                            left_by(
                                Error::RngFailure,
                                kind,
                                SEGMENT_OVERHEAD + before.buffer().plaintext_view()->0.len(),
                                Seq::empty(),
                                space,
                            )
                        }
                    },
                }
            },
        }
    }

    /// `segment` was produced from the plaintext that was there.
    pub open spec fn segment_produced(
        before: Self,
        after: Self,
        is_final: bool,
        segment: Seq<u8>,
    ) -> bool {
        let counter = before.encryptor()->0.counter();
        let kind = if is_final {
            SegmentKind::Final
        } else {
            SegmentKind::NonFinal
        };
        &&& counter.error(kind) is None
        &&& after.session().encrypts(
            counter.next,
            kind,
            before.buffer().plaintext_view()->0,
            segment,
        )
        &&& after.emitted() == before.emitted() + segment
        &&& after.source() == before.source()
        &&& after.lookahead() == before.lookahead()
        &&& after.fetch() is Idle
        &&& if is_final {
            after.status() is Finished
        } else {
            &&& after.status() is Open
            &&& after.encryptor()->0.counter() == counter.advanced(SegmentKind::NonFinal)
            &&& after.encryptor()->0.provider() == before.encryptor()->0.provider()
            &&& nonces_used(
                before.encryptor()->0.nonces(),
                after.encryptor()->0.nonces(),
                None,
                Ok(segment),
            )
        }
    }

    /// The outcome of a read into `space`, which leaves `output`.
    pub open spec fn read_outcome(
        before: Self,
        after: Self,
        space: Seq<u8>,
        output: Seq<u8>,
        result: Result<ReadStep, StreamError>,
    ) -> bool {
        let count = lesser(space.len() as int, before.available().len() as int);
        if space.len() == 0 {
            &&& result == Ok::<ReadStep, StreamError>(ReadStep::Served(0))
            &&& after == before
            &&& output == space
        } else if before.status() is Failed {
            &&& result == Err::<ReadStep, StreamError>(StreamError::Poisoned)
            &&& after == before
            &&& output == space
        } else if before.available().len() > 0 {
            &&& result == Ok::<ReadStep, StreamError>(ReadStep::Served(count as usize))
            &&& Self::served_available(before, after, space, output, count)
        } else if before.status() is Finished {
            &&& result == Ok::<ReadStep, StreamError>(ReadStep::Served(0))
            &&& after == before
            &&& output == space
        } else {
            match before.fetch() {
                PlaintextFetch::Ready { is_final } => Self::segment_served(
                    before,
                    after,
                    is_final,
                    space,
                    output,
                    result,
                ),
                PlaintextFetch::Idle => {
                    &&& result == Ok::<ReadStep, StreamError>(ReadStep::Fetch)
                    &&& output == space
                    &&& Self::fetch_begun(before, after)
                },
                _ => {
                    &&& result == Ok::<ReadStep, StreamError>(ReadStep::Fetch)
                    &&& output == space
                    &&& after == before
                },
            }
        }
    }

    /// Reading the next plaintext begins with the byte that was read ahead.
    pub open spec fn fetch_begun(before: Self, after: Self) -> bool {
        &&& after.fetch() is Plaintext
        &&& after.held() == before.held()
        &&& after.encryptor() == before.encryptor()
        &&& after.status() == before.status()
        &&& after.source() == before.source()
        &&& after.emitted() == before.emitted()
        &&& after.available() == before.available()
    }

    /// Serves ciphertext into `output`, or says that plaintext must be read
    /// first.
    ///
    /// After [`ReadStep::Fetch`], read from the wrapped reader into
    /// [`Self::input`] and report that with [`Self::input_read`] until
    /// [`Self::input_length`] is zero, and call this again with the same
    /// `output`.
    ///
    /// # Errors
    ///
    /// Returns an error if the reader is poisoned, the segment limit is
    /// reached, or random generation fails.
    pub fn read(&mut self, output: &mut [u8]) -> (result: Result<ReadStep, StreamError>)
        requires
            old(self).wf(),
        ensures
            final(self).wf(),
            Self::same_stream(*old(self), *final(self)),
            final(output)@.len() == old(output)@.len(),
            Self::read_outcome(
                *old(self),
                *final(self),
                old(output)@,
                final(output)@,
                result,
            ),
    {
        if output.len() == 0 {
            return Ok(ReadStep::Served(0));
        }
        if matches!(self.status, StreamStatus::Failed) {
            return Err(StreamError::Poisoned);
        }
        if self.header_position < Header::LEN {
            return Ok(ReadStep::Served(self.serve_header(output)));
        }
        if self.ciphertext_position < self.ciphertext_length {
            return Ok(ReadStep::Served(self.serve_ciphertext(output)));
        }
        if matches!(self.status, StreamStatus::Finished) {
            return Ok(ReadStep::Served(0));
        }
        match self.fetch {
            PlaintextFetch::Idle => {
                self.begin_fetch();
                Ok(ReadStep::Fetch)
            },
            PlaintextFetch::Plaintext(_) | PlaintextFetch::Lookahead(_) => Ok(ReadStep::Fetch),
            PlaintextFetch::Ready { is_final } => {
                if output.len() >= self.parameters().ciphertext_segment_length() {
                    return self.emit_segment_direct(is_final, output);
                }
                let ghost before = *self;
                self.load_segment(is_final)?;
                let ghost loaded = *self;
                let served = self.serve_ciphertext(output);
                proof {
                    let segment = loaded.emitted().skip(before.emitted().len() as int);
                    assert(segment =~= loaded.buffer().ciphertext_view()->0);
                    assert(loaded.available() =~= segment);
                }
                Ok(ReadStep::Served(served))
            },
        }
    }

    fn serve_header(&mut self, output: &mut [u8]) -> (read: usize)
        requires
            old(self).wf(),
            !(old(self).status() is Failed),
            old(self).header_position() < HEADER_LENGTH,
        ensures
            final(self).wf(),
            Self::same_stream(*old(self), *final(self)),
            final(output)@.len() == old(output)@.len(),
            read == lesser(old(output)@.len() as int, old(self).available().len() as int),
            Self::served_available(
                *old(self),
                *final(self),
                old(output)@,
                final(output)@,
                read as int,
            ),
    {
        let ghost before = *self;
        let ghost space = output@;
        proof {
            self.header.lemma_length();
        }
        let left: usize = Header::LEN - self.header_position;
        let read: usize = if output.len() < left {
            output.len()
        } else {
            left
        };
        let end: usize = self.header_position + read;
        let bytes: &[u8] = self.header.as_bytes();
        range_mut(output, 0, read).copy_from_slice(&bytes[self.header_position..end]);
        self.header_position = end;
        proof {
            assert(output@ =~= before.available().take(read as int) + space.skip(read as int));
            assert(self.available() =~= before.available().skip(read as int));
            assert(self.emitted() =~= self.served() + self.available());
            assert(self.encrypted() =~= before.encrypted());
        }
        read
    }

    fn serve_ciphertext(&mut self, output: &mut [u8]) -> (read: usize)
        requires
            old(self).wf(),
            !(old(self).status() is Failed),
            old(self).header_position() == HEADER_LENGTH,
            old(self).unserved().0 < old(self).unserved().1,
        ensures
            final(self).wf(),
            Self::same_stream(*old(self), *final(self)),
            final(output)@.len() == old(output)@.len(),
            read == lesser(old(output)@.len() as int, old(self).available().len() as int),
            final(self).lookahead() == old(self).lookahead(),
            Self::served_available(
                *old(self),
                *final(self),
                old(output)@,
                final(output)@,
                read as int,
            ),
    {
        let ghost before = *self;
        let ghost space = output@;
        let ciphertext = match self.buffer.ciphertext() {
            Ok(ciphertext) => ciphertext,
            Err(_) => {
                return 0;
            },
        };
        let left: usize = self.ciphertext_length - self.ciphertext_position;
        let read: usize = if output.len() < left {
            output.len()
        } else {
            left
        };
        let end: usize = self.ciphertext_position + read;
        range_mut(output, 0, read).copy_from_slice(&ciphertext[self.ciphertext_position..end]);
        self.ciphertext_position = end;
        proof {
            assert(output@ =~= before.available().take(read as int) + space.skip(read as int));
            assert(self.available() =~= before.available().skip(read as int));
            assert(self.emitted() =~= self.served() + self.available());
            assert(self.encrypted() =~= before.encrypted());
        }
        read
    }

    /// Prepares to read the plaintext of the next segment.
    fn begin_fetch(&mut self)
        requires
            old(self).wf(),
            old(self).status() is Open,
            old(self).fetch() is Idle,
            old(self).available().len() == 0,
        ensures
            final(self).wf(),
            Self::same_stream(*old(self), *final(self)),
            Self::fetch_begun(*old(self), *final(self)),
    {
        let ghost before = *self;
        let capacity = self.parameters().plaintext_segment_length();
        let mut filled: usize = 0;
        match self.buffer.prepare_plaintext(capacity) {
            Ok(plaintext) => {
                if let Some(byte) = self.lookahead {
                    plaintext[0] = byte;
                    filled = 1;
                }
            },
            Err(_) => {},
        }
        self.lookahead = None;
        self.fetch = PlaintextFetch::Plaintext(ReadProgress::new(capacity, filled));
        proof {
            assert(self.held() =~= before.held());
            assert(self.available() =~= before.available());
            assert(self.served() =~= before.served());
            assert(self.encrypted() =~= before.encrypted());
        }
    }

    /// Encrypts the next segment in the buffer.
    fn load_segment(&mut self, is_final: bool) -> (result: Result<(), StreamError>)
        requires
            old(self).wf(),
            old(self).status() is Open,
            old(self).fetch() == (PlaintextFetch::Ready { is_final }),
            old(self).header_position() == HEADER_LENGTH,
            old(self).unserved().0 == old(self).unserved().1,
        ensures
            final(self).wf(),
            Self::same_stream(*old(self), *final(self)),
            match result {
                Ok(_) => {
                    &&& final(self).header_position() == HEADER_LENGTH
                    &&& final(self).unserved().0 == 0
                    &&& final(self).unserved().0 < final(self).unserved().1
                    &&& Self::segment_produced(
                        *old(self),
                        *final(self),
                        is_final,
                        final(self).buffer().ciphertext_view()->0,
                    )
                },
                Err(error) => Self::segment_served(
                    *old(self),
                    *final(self),
                    is_final,
                    Seq::empty(),
                    Seq::empty(),
                    Err(error),
                ),
            },
    {
        let ghost before = *self;
        let mut encryptor = match self.encryptor.take() {
            Some(encryptor) => encryptor,
            None => {
                return Err(StreamError::Poisoned);
            },
        };
        let ghost counter = encryptor.counter();
        proof {
            encryptor.lemma_next_position();
        }
        if is_final {
            match encryptor.encrypt_final_segment_in_place(&mut self.buffer) {
                Ok(encrypted) => {
                    self.ciphertext_length = encrypted.len();
                },
                Err(failure) => {
                    self.status = StreamStatus::Failed;
                    return Err(StreamError::Encryption(failure.into_error()));
                },
            }
            self.status = StreamStatus::Finished;
        } else {
            match encryptor.encrypt_non_final_segment_in_place(&mut self.buffer) {
                Ok(encrypted) => {
                    self.ciphertext_length = encrypted.len();
                },
                Err(error) => {
                    self.status = StreamStatus::Failed;
                    return Err(StreamError::Encryption(error));
                },
            }
            self.encryptor = Some(encryptor);
        }
        self.ciphertext_position = 0;
        self.fetch = PlaintextFetch::Idle;
        proof {
            let segment = self.buffer.ciphertext_view()->0;
            self.emitted@ = self.emitted@ + segment;
            self.lemma_segment_added(before, is_final, segment);
            assert(self.available() =~= segment);
            assert(self.served() =~= before.emitted());
        }
        Ok(())
    }

    /// Encrypts the next segment straight into the caller's buffer, skipping
    /// the in-place seal plus copy-out that sub-segment reads require.
    fn emit_segment_direct(&mut self, is_final: bool, output: &mut [u8]) -> (result: Result<
        ReadStep,
        StreamError,
    >)
        requires
            old(self).wf(),
            old(self).status() is Open,
            old(self).fetch() == (PlaintextFetch::Ready { is_final }),
            old(self).header_position() == HEADER_LENGTH,
            old(self).unserved().0 == old(self).unserved().1,
            old(output)@.len() >= old(self).session().parameters.segment_length(),
        ensures
            final(self).wf(),
            Self::same_stream(*old(self), *final(self)),
            final(output)@.len() == old(output)@.len(),
            Self::segment_served(
                *old(self),
                *final(self),
                is_final,
                old(output)@,
                final(output)@,
                result,
            ),
    {
        let ghost before = *self;
        let ghost space = output@;
        let mut encryptor = match self.encryptor.take() {
            Some(encryptor) => encryptor,
            None => {
                return Err(StreamError::Poisoned);
            },
        };
        let ghost counter = encryptor.counter();
        proof {
            encryptor.lemma_next_position();
        }
        let plaintext = match self.buffer.plaintext() {
            Ok(plaintext) => plaintext,
            Err(error) => {
                return Err(StreamError::Encryption(error));
            },
        };
        let written: usize;
        if is_final {
            written = match encryptor.encrypt_final_segment_into(plaintext, output) {
                Ok(written) => written,
                Err(failure) => {
                    self.status = StreamStatus::Failed;
                    return Err(StreamError::Encryption(failure.into_error()));
                },
            };
            self.status = StreamStatus::Finished;
        } else {
            written = match encryptor.encrypt_non_final_segment_into(plaintext, output) {
                Ok(written) => written,
                Err(error) => {
                    self.status = StreamStatus::Failed;
                    return Err(StreamError::Encryption(error));
                },
            };
            self.encryptor = Some(encryptor);
        }
        self.fetch = PlaintextFetch::Idle;
        proof {
            let segment = output@.take(written as int);
            self.emitted@ = self.emitted@ + segment;
            self.lemma_segment_added(before, is_final, segment);
            assert(self.emitted().skip(before.emitted().len() as int) =~= segment);
            assert(segment.take(written as int) =~= segment);
            assert(output@ =~= segment + space.skip(written as int));
            assert(self.available() =~= segment.skip(written as int));
            assert(self.emitted() =~= self.served() + self.available());
        }
        Ok(ReadStep::Served(written))
    }

    /// One more segment keeps a message decryptable.
    proof fn lemma_segment_added(&self, before: Self, is_final: bool, segment: Seq<u8>)
        requires
            before.wf(),
            before.status() is Open,
            before.fetch() == (PlaintextFetch::Ready { is_final }),
            before.encryptor()->0.counter().wf(),
            self.session() == before.session(),
            self.source() == before.source(),
            self.lookahead() == before.lookahead(),
            self.fetch() is Idle,
            self.emitted() == before.emitted() + segment,
            ({
                let counter = before.encryptor()->0.counter();
                let kind = if is_final {
                    SegmentKind::Final
                } else {
                    SegmentKind::NonFinal
                };
                &&& counter.error(kind) is None
                &&& before.session().encrypts(
                    counter.next,
                    kind,
                    before.buffer().plaintext_view()->0,
                    segment,
                )
            }),
        ensures
            self.emitted().len() >= HEADER_LENGTH,
            self.emitted().take(HEADER_LENGTH as int) == before.emitted().take(
                HEADER_LENGTH as int,
            ),
            is_final ==> self.complete(),
            self.held().len() <= self.source().len(),
            self.source() == self.encrypted() + self.held(),
            !is_final ==> opens_with(
                self.session(),
                self.emitted().skip(HEADER_LENGTH as int),
                self.encrypted(),
                before.encryptor()->0.counter().advanced(SegmentKind::NonFinal),
            ),
            !is_final ==> self.held().len() > 0 && full_segments(
                self.session().parameters,
                before.encryptor()->0.counter().advanced(SegmentKind::NonFinal),
                self.emitted().len() - HEADER_LENGTH,
                self.encrypted().len() as int,
            ),
    {
        let kind = if is_final {
            SegmentKind::Final
        } else {
            SegmentKind::NonFinal
        };
        let piece = before.buffer().plaintext_view()->0;
        let body = before.emitted().skip(HEADER_LENGTH as int);
        lemma_full_segments(
            before.session().parameters,
            before.encryptor()->0.counter(),
            before.emitted().len() - HEADER_LENGTH,
            before.encrypted().len() as int,
            piece.len() as int,
        );
        assert(segment.len() == SEGMENT_OVERHEAD + piece.len()) by {
            reveal(Session::encrypts);
        }
        lemma_opens_with_encrypted(
            before.session(),
            body,
            before.encrypted(),
            before.encryptor()->0.counter(),
            kind,
            segment,
            piece,
        );
        assert(self.emitted().skip(HEADER_LENGTH as int) =~= body + segment);
        assert(self.emitted().take(HEADER_LENGTH as int) =~= before.emitted().take(
            HEADER_LENGTH as int,
        ));
        assert(before.held() =~= piece + self.held());
        assert(self.encrypted() =~= before.encrypted() + piece);
        assert(self.source() =~= self.encrypted() + self.held());
        if is_final {
            assert(self.source() =~= before.encrypted() + piece);
        }
    }

    /// The state once `bytes` are where input is read to.
    pub open spec fn input_filled(before: Self, after: Self, bytes: Seq<u8>) -> bool {
        &&& after.wf()
        &&& after.target() == bytes
        &&& after.held() == before.held()
        &&& after.available() == before.available()
    }

    /// Returns how many plaintext bytes are to be read next at most. There are
    /// none to read where this is zero.
    pub fn input_length(&self) -> (length: usize)
        requires
            self.wf(),
            !(self.status() is Failed),
        ensures
            self.status() is Open ==> length == self.target().len(),
            self.status() is Finished ==> length == 0,
    {
        if matches!(self.status, StreamStatus::Finished) {
            return 0;
        }
        match self.fetch {
            PlaintextFetch::Plaintext(progress) => {
                self.parameters().plaintext_segment_length() - progress.filled()
            },
            PlaintextFetch::Lookahead(_) => 1,
            PlaintextFetch::Idle | PlaintextFetch::Ready { .. } => 0,
        }
    }

    /// Returns the wrapped reader, and where the next plaintext bytes from it
    /// are to be read to.
    pub fn input(&mut self) -> (parts: (&mut R, &mut [u8]))
        requires
            old(self).wf(),
            old(self).status() is Open,
        ensures
            *parts.0 == old(self).inner(),
            parts.1@ == old(self).target(),
            final(self).inner() == *final(parts.0),
            Self::same_progress(*old(self), *final(self)),
            final(parts.1)@.len() == parts.1@.len() ==> Self::input_filled(
                *old(self),
                *final(self),
                final(parts.1)@,
            ),
    {
        match self.fetch {
            PlaintextFetch::Plaintext(progress) => {
                (&mut self.inner, self.buffer.plaintext_from(progress.filled()))
            },
            PlaintextFetch::Lookahead(_) => (&mut self.inner, &mut self.trailing),
            PlaintextFetch::Idle | PlaintextFetch::Ready { .. } => {
                (&mut self.inner, range_mut(&mut self.trailing, 0, 0))
            },
        }
    }

    /// The state once `read` more plaintext bytes are there, or, where there are
    /// none, once the plaintext has ended.
    pub open spec fn input_recorded(before: Self, after: Self, read: int) -> bool {
        &&& after.encryptor() == before.encryptor()
        &&& after.status() is Open
        &&& after.emitted() == before.emitted()
        &&& after.available() == before.available()
        &&& after.source() == before.source() + before.target().take(read)
        &&& after.encrypted() == before.encrypted()
        &&& match before.fetch() {
            PlaintextFetch::Plaintext(_) => if read == 0 {
                after.fetch() == (PlaintextFetch::Ready { is_final: true })
            } else if read == before.target().len() {
                after.fetch() is Lookahead
            } else {
                after.fetch() is Plaintext && after.target() == before.target().skip(read)
            },
            PlaintextFetch::Lookahead(_) => after.fetch() == (PlaintextFetch::Ready {
                is_final: read == 0,
            }),
            _ => after == before,
        }
    }

    /// Records that `read` bytes were read to the start of [`Self::input`].
    /// None means that the wrapped reader has ended.
    pub fn input_read(&mut self, read: usize)
        requires
            old(self).wf(),
            old(self).status() is Open,
            read <= old(self).target().len(),
        ensures
            final(self).wf(),
            Self::same_stream(*old(self), *final(self)),
            Self::input_recorded(*old(self), *final(self), read as int),
    {
        let ghost before = *self;
        match self.fetch {
            PlaintextFetch::Idle | PlaintextFetch::Ready { .. } => {
                assert(self.source() =~= before.source() + before.target().take(read as int));
            },
            PlaintextFetch::Plaintext(progress) => {
                let mut progress = progress;
                progress.advance(read);
                proof {
                    self.source@ = self.source@ + before.target().take(read as int);
                }
                if !progress.is_done() {
                    self.fetch = PlaintextFetch::Plaintext(progress);
                    assert(self.target() =~= before.target().skip(read as int));
                } else if progress.filled() < progress.required() {
                    let _ = self.buffer.truncate_plaintext(progress.filled());
                    self.fetch = PlaintextFetch::Ready { is_final: true };
                } else {
                    self.fetch = PlaintextFetch::Lookahead(ReadProgress::new(1, 0));
                }
                proof {
                    assert(self.held() =~= before.held() + before.target().take(read as int));
                    assert(self.encrypted() =~= before.encrypted());
                    assert(self.source() =~= self.encrypted() + self.held());
                    assert(self.available() =~= before.available());
                    assert(self.emitted() =~= self.served() + self.available());
                }
            },
            PlaintextFetch::Lookahead(_) => {
                proof {
                    self.source@ = self.source@ + before.target().take(read as int);
                }
                if read == 0 {
                    self.fetch = PlaintextFetch::Ready { is_final: true };
                } else {
                    self.lookahead = Some(self.trailing[0]);
                    self.fetch = PlaintextFetch::Ready { is_final: false };
                }
                proof {
                    assert(self.held() =~= before.held() + before.target().take(read as int));
                    assert(self.encrypted() =~= before.encrypted());
                    assert(self.source() =~= self.encrypted() + self.held());
                    assert(self.available() =~= before.available());
                    assert(self.emitted() =~= self.served() + self.available());
                }
            },
        }
    }

    /// Records that reading the wrapped reader failed, after which this reader
    /// is unusable.
    pub fn input_failed(&mut self)
        requires
            old(self).wf(),
        ensures
            final(self).wf(),
            final(self).inner() == old(self).inner(),
            final(self).status() is Failed,
    {
        self.status = StreamStatus::Failed;
    }

    /// Extracts the wrapped reader without requiring complete ciphertext
    /// production.
    pub fn into_inner_unfinished(self) -> (inner: R)
        ensures
            inner == self.inner(),
    {
        self.inner
    }
}

} // verus!
