use crate::buffer::SegmentBuffer;
use crate::counter::SegmentCounter;
use crate::error::Error;
use crate::header::Header;
use crate::io::{FinishError, StreamError, StreamStatus};
use crate::key::Key;
use crate::message::{
    body_decrypted, lemma_body_completes_message, lemma_opens_with_encrypted,
    lemma_opens_with_nothing, message_decrypted, opens_with,
};
use crate::model::{header, header_iv, session, Session};
use crate::online::Encryptor;
use crate::parameters::{Parameters, SegmentKind, HEADER_LENGTH};
use crate::state::nonces_used;
use vstd::prelude::*;

verus! {

/// What a write to an [`EncryptWriter`] came to.
#[derive(Clone, Copy, Debug, PartialEq, Eq, Structural)]
pub enum WriteStep {
    /// This many bytes of the input were taken.
    Accepted(usize),
    /// Write out [`EncryptWriter::output`] first.
    Emit,
}

/// What an attempt to finish an [`EncryptWriter`] came to.
#[derive(Clone, Copy, Debug, PartialEq, Eq, Structural)]
pub enum FinishStep {
    /// The message is complete.
    Done,
    /// Write out [`EncryptWriter::output`] and flush first.
    Emit,
}

/// The output that an [`EncryptWriter`] waits for.
#[derive(Clone, Copy, Debug, PartialEq, Eq, Structural)]
pub enum Pending {
    /// No output is waiting.
    Nothing,
    /// The header is waiting.
    Header,
    /// A non-final segment is waiting. Once it is written, this many bytes of
    /// the current input have been taken.
    Segment { accepted: usize },
    /// The final segment is waiting.
    Final,
}

/// A bounded-memory FLOE encrypting writer.
///
/// Complete the message with [`Self::try_finish`], then consume this adapter
/// with [`Self::finish`], which returns the wrapped writer. Use
/// [`Self::into_inner_unfinished`] only when deliberately abandoning an
/// incomplete ciphertext.
///
/// Because FLOE permits only full-sized non-final segments, a flush cannot emit
/// a buffered partial segment without closing the message. It flushes only
/// ciphertext already written to the wrapped writer. Only [`Self::try_finish`]
/// emits the buffered partial segment. Dropping this type without successful
/// finalization leaves a truncated ciphertext.
pub struct EncryptWriter<W> {
    inner: W,
    encryptor: Option<Encryptor>,
    header: Header,
    buffer: SegmentBuffer,
    status: StreamStatus,
    pending: Pending,
    session: Ghost<Session>,
    accepted: Ghost<Seq<u8>>,
    emitted: Ghost<Seq<u8>>,
}

impl<W> EncryptWriter<W> {
    /// The wrapped writer.
    pub closed spec fn inner(&self) -> W {
        self.inner
    }

    /// What encrypts the next segment, while the message is open.
    pub closed spec fn encryptor(&self) -> Option<Encryptor> {
        self.encryptor
    }

    pub closed spec fn spec_header(&self) -> Header {
        self.header
    }

    /// The storage for one segment.
    pub closed spec fn buffer(&self) -> SegmentBuffer {
        self.buffer
    }

    /// Whether this writer can still be used.
    pub closed spec fn status(&self) -> StreamStatus {
        self.status
    }

    /// The output that is waiting.
    pub closed spec fn pending(&self) -> Pending {
        self.pending
    }

    /// What the message is encrypted with.
    pub closed spec fn session(&self) -> Session {
        self.session@
    }

    /// All the plaintext that was taken.
    pub closed spec fn accepted(&self) -> Seq<u8> {
        self.accepted@
    }

    /// All the ciphertext that was produced, from the header on.
    pub closed spec fn emitted(&self) -> Seq<u8> {
        self.emitted@
    }

    /// The plaintext that was taken and is not encrypted yet.
    pub open spec fn buffered(&self) -> Seq<u8> {
        match self.buffer().plaintext_view() {
            Some(plaintext) => plaintext,
            None => Seq::empty(),
        }
    }

    /// The plaintext that is encrypted.
    pub open spec fn encrypted(&self) -> Seq<u8> {
        self.accepted().take(self.accepted().len() - self.buffered().len())
    }

    /// The bytes that are to be written out next.
    pub open spec fn pending_bytes(&self) -> Seq<u8> {
        match self.pending() {
            Pending::Nothing => Seq::empty(),
            Pending::Header => self.spec_header()@,
            Pending::Segment { .. } => self.buffer().ciphertext_view()->0,
            Pending::Final => self.buffer().ciphertext_view()->0,
        }
    }

    /// While the message is open, its segments give the plaintext that is
    /// encrypted, and the rest of the plaintext is in the buffer. A generator
    /// that can be seeded is seeded since the IV was drawn. Once it is
    /// complete, it decrypts to all the plaintext that was taken.
    pub open spec fn wf(&self) -> bool {
        &&& self.session().parameters.wf()
        &&& self.buffer().wf()
        &&& self.buffer().parameters() == self.session().parameters
        &&& self.pending() is Segment || self.pending() is Final ==> self.buffer().state()
            is Ciphertext
        &&& self.emitted().len() >= HEADER_LENGTH
        &&& self.emitted().take(HEADER_LENGTH as int) == self.spec_header()@
        &&& match self.status() {
            StreamStatus::Failed => true,
            StreamStatus::Finished => self.pending() is Nothing && self.complete(),
            StreamStatus::Open => if self.pending() is Final {
                self.complete()
            } else {
                self.continues()
            },
        }
    }

    /// The message is open.
    pub open spec fn continues(&self) -> bool {
        &&& self.encryptor() matches Some(encryptor)
        &&& encryptor.wf()
        &&& encryptor.session() == self.session()
        &&& encryptor.provider() is RustCrypto ==> encryptor.nonces().seeded
        &&& self.buffered().len() <= self.accepted().len()
        &&& self.accepted() == self.encrypted() + self.buffered()
        &&& opens_with(
            self.session(),
            self.emitted().skip(HEADER_LENGTH as int),
            self.encrypted(),
            encryptor.counter(),
        )
    }

    /// The message is complete.
    pub open spec fn complete(&self) -> bool {
        body_decrypted(
            self.session(),
            SegmentCounter::start(),
            self.emitted().skip(HEADER_LENGTH as int),
        ) == Ok::<Seq<u8>, Error>(self.accepted())
    }

    /// Both are states of one stream.
    pub open spec fn same_stream(before: Self, after: Self) -> bool {
        &&& after.inner() == before.inner()
        &&& after.spec_header() == before.spec_header()
        &&& after.session() == before.session()
    }

    /// The ciphertext that a finished writer has produced decrypts, under the
    /// key and associated data that the writer was made with, to all the
    /// plaintext that it has taken.
    pub proof fn lemma_finished_message_decrypts(
        &self,
        key: Seq<u8>,
        aad: Seq<u8>,
        parameters: Parameters,
        iv: Seq<u8>,
    )
        requires
            self.wf(),
            self.status() is Finished,
            self.session() == session(key, parameters, iv, aad),
            self.spec_header()@ == header(key, parameters, iv, aad),
            iv == header_iv(self.spec_header()@),
        ensures
            message_decrypted(key, aad, self.emitted()) == Ok::<Seq<u8>, Error>(self.accepted()),
    {
        lemma_body_completes_message(key, aad, parameters, iv, self.emitted());
    }

    /// Nothing was written yet, and the header is waiting.
    pub open spec fn fresh(&self) -> bool {
        &&& self.wf()
        &&& self.status() is Open
        &&& self.pending() is Header
        &&& self.buffer().state() is Empty
        &&& self.accepted() == Seq::<u8>::empty()
        &&& self.emitted() == self.spec_header()@
    }

    /// The message is encrypted under `key`, with `parameters` and `aad`.
    pub open spec fn made_for(&self, key: Seq<u8>, parameters: Parameters, aad: Seq<u8>) -> bool {
        let iv = header_iv(self.spec_header()@);
        &&& self.session() == session(key, parameters, iv, aad)
        &&& self.spec_header()@ == header(key, parameters, iv, aad)
    }

    /// Creates an encrypting writer, whose header is the first output.
    ///
    /// # Errors
    ///
    /// Returns an error if encryption initialization or random generation
    /// fails.
    pub fn new(inner: W, key: &Key, aad: &[u8], parameters: Parameters) -> (result: Result<
        Self,
        StreamError,
    >)
        ensures
            match key.resolved() {
                None => result is Err && result->Err_0 == StreamError::Encryption(
                    Error::ProviderSelectionRequired,
                ),
                Some(provider) => match result {
                    Ok(writer) => {
                        &&& writer.fresh()
                        &&& writer.made_for(key@, parameters, aad@)
                        &&& writer.inner() == inner
                        &&& writer.encryptor()->0.counter() == SegmentCounter::start()
                        &&& writer.encryptor()->0.provider() == provider
                        &&& writer.encryptor()->0.nonces().is_spent()
                    },
                    Err(error) => error == StreamError::Encryption(Error::RngFailure),
                },
            },
    {
        let encryptor = match Encryptor::new(key, aad, parameters) {
            Ok(encryptor) => encryptor,
            Err(error) => {
                return Err(StreamError::Encryption(error));
            },
        };
        let header = *encryptor.header();
        let ghost session = encryptor.session();
        proof {
            header.lemma_length();
            assert(header@.skip(HEADER_LENGTH as int) =~= Seq::empty());
            assert(header@.take(HEADER_LENGTH as int) =~= header@);
            lemma_opens_with_nothing(session);
        }
        let writer = Self {
            inner,
            encryptor: Some(encryptor),
            header,
            buffer: SegmentBuffer::new(parameters),
            status: StreamStatus::Open,
            pending: Pending::Header,
            session: Ghost(session),
            accepted: Ghost(Seq::empty()),
            emitted: Ghost(header@),
        };
        assert(writer.encrypted() =~= Seq::empty());
        assert(writer.accepted() =~= writer.encrypted() + writer.buffered());
        Ok(writer)
    }

    /// Returns the authenticated header, which is the first output.
    pub fn header(&self) -> (header: &Header)
        ensures
            *header == self.spec_header(),
    {
        &self.header
    }

    /// Returns this writer's parameter set.
    pub fn parameters(&self) -> (parameters: Parameters)
        requires
            self.wf(),
        ensures
            parameters == self.session().parameters,
    {
        self.buffer.parameters()
    }

    /// Returns a shared reference to the wrapped writer.
    pub fn get_ref(&self) -> (inner: &W)
        ensures
            *inner == self.inner(),
    {
        &self.inner
    }

    /// Everything but the wrapped writer is the same.
    pub open spec fn same_but_inner(before: Self, after: Self) -> bool {
        &&& after.encryptor() == before.encryptor()
        &&& after.spec_header() == before.spec_header()
        &&& after.buffer() == before.buffer()
        &&& after.status() == before.status()
        &&& after.pending() == before.pending()
        &&& after.session() == before.session()
        &&& after.accepted() == before.accepted()
        &&& after.emitted() == before.emitted()
    }

    /// Returns a mutable reference to the wrapped writer.
    ///
    /// Writing ciphertext directly can corrupt the FLOE message.
    pub fn get_mut(&mut self) -> (inner: &mut W)
        ensures
            *inner == old(self).inner(),
            final(self).inner() == *final(inner),
            Self::same_but_inner(*old(self), *final(self)),
    {
        &mut self.inner
    }

    /// Returns whether finalization completed successfully.
    pub fn is_finished(&self) -> (finished: bool)
        ensures
            finished == (self.status() is Finished),
    {
        matches!(self.status, StreamStatus::Finished)
    }

    /// Returns the wrapped writer and the bytes that are to be written to it
    /// next. There are none where no output is waiting.
    pub fn output(&mut self) -> (parts: (&mut W, &[u8]))
        requires
            old(self).wf(),
        ensures
            *parts.0 == old(self).inner(),
            parts.1@ == old(self).pending_bytes(),
            final(self).inner() == *final(parts.0),
            Self::same_but_inner(*old(self), *final(self)),
    {
        let header: &[u8] = self.header.as_bytes();
        let bytes: &[u8] = match self.pending {
            Pending::Nothing => &header[0..0],
            Pending::Header => header,
            Pending::Segment { .. } | Pending::Final => match self.buffer.ciphertext() {
                Ok(bytes) => bytes,
                Err(_) => &header[0..0],
            },
        };
        (&mut self.inner, bytes)
    }

    /// The state once the waiting output is written, which has taken `accepted`
    /// bytes of the input of the current write.
    pub open spec fn output_taken(before: Self, after: Self, accepted: usize) -> bool {
        &&& Self::same_stream(before, after)
        &&& after.encryptor() == before.encryptor()
        &&& after.buffer() == before.buffer()
        &&& after.pending() is Nothing
        &&& after.accepted() == before.accepted()
        &&& after.emitted() == before.emitted()
        &&& after.status() == if before.status() is Open && before.pending() is Final {
            StreamStatus::Finished
        } else {
            before.status()
        }
        &&& accepted == match before.pending() {
            Pending::Segment { accepted } => accepted,
            _ => 0,
        }
    }

    /// Records that [`Self::output`] is written out completely, and flushed if
    /// the message was to be finished. Returns how many bytes of the input of
    /// the current write have thereby been taken.
    pub fn output_written(&mut self) -> (accepted: usize)
        requires
            old(self).wf(),
        ensures
            final(self).wf(),
            Self::output_taken(*old(self), *final(self), accepted),
    {
        let accepted: usize = match self.pending {
            Pending::Segment { accepted } => accepted,
            Pending::Final => {
                if matches!(self.status, StreamStatus::Open) {
                    self.status = StreamStatus::Finished;
                }
                0
            },
            Pending::Nothing | Pending::Header => 0,
        };
        self.pending = Pending::Nothing;
        accepted
    }

    /// Records that writing or flushing the wrapped writer failed, after which
    /// this writer is unusable.
    pub fn output_failed(&mut self)
        requires
            old(self).wf(),
        ensures
            final(self).wf(),
            final(self).inner() == old(self).inner(),
            final(self).status() is Failed,
    {
        self.status = StreamStatus::Failed;
    }

    /// The outcome of encrypting `plaintext` as the next non-final segment,
    /// which takes `accepted` bytes of the input.
    pub open spec fn segment_emitted(
        before: Self,
        after: Self,
        plaintext: Seq<u8>,
        accepted: usize,
        result: Result<WriteStep, StreamError>,
    ) -> bool {
        let counter = before.encryptor()->0.counter();
        match result {
            Ok(step) => {
                &&& step == WriteStep::Emit
                &&& counter.error(SegmentKind::NonFinal) is None
                &&& after.status() is Open
                &&& after.pending() == (Pending::Segment { accepted })
                &&& after.encryptor()->0.counter() == counter.advanced(SegmentKind::NonFinal)
                &&& after.encryptor()->0.provider() == before.encryptor()->0.provider()
                &&& nonces_used(
                    before.encryptor()->0.nonces(),
                    after.encryptor()->0.nonces(),
                    None,
                    Ok(after.pending_bytes()),
                )
                &&& after.session().encrypts(
                    counter.next,
                    SegmentKind::NonFinal,
                    plaintext,
                    after.pending_bytes(),
                )
                &&& after.emitted() == before.emitted() + after.pending_bytes()
            },
            Err(error) => {
                &&& after.status() is Failed
                &&& match counter.error(SegmentKind::NonFinal) {
                    Some(limit) => error == StreamError::Encryption(limit),
                    None => {
                        &&& error == StreamError::Encryption(Error::RngFailure)
                        &&& !before.encryptor()->0.nonces().is_sure()
                    },
                }
            },
        }
    }

    /// The outcome of writing `input`.
    pub open spec fn written(
        before: Self,
        after: Self,
        input: Seq<u8>,
        result: Result<WriteStep, StreamError>,
    ) -> bool {
        let capacity = before.session().parameters.payload_length();
        let held = before.buffered();
        if input.len() == 0 {
            &&& result == Ok::<WriteStep, StreamError>(WriteStep::Accepted(0))
            &&& after == before
        } else if before.status() is Finished {
            &&& result == Err::<WriteStep, StreamError>(StreamError::AlreadyFinished)
            &&& after == before
        } else if before.status() is Failed {
            &&& result == Err::<WriteStep, StreamError>(StreamError::Poisoned)
            &&& after == before
        } else if !(before.pending() is Nothing) {
            &&& result == Ok::<WriteStep, StreamError>(WriteStep::Emit)
            &&& after == before
        } else if input.len() >= capacity && !(before.buffer().state() is Plaintext) {
            &&& Self::segment_emitted(
                before,
                after,
                input.take(capacity),
                capacity as usize,
                result,
            )
            &&& result is Ok ==> after.accepted() == before.accepted() + input.take(capacity)
        } else if held.len() < capacity {
            let space = capacity - held.len();
            let count = if input.len() < space {
                input.len() as int
            } else {
                space
            };
            &&& result == Ok::<WriteStep, StreamError>(WriteStep::Accepted(count as usize))
            &&& after.status() is Open
            &&& after.pending() is Nothing
            &&& after.encryptor() == before.encryptor()
            &&& after.emitted() == before.emitted()
            &&& after.buffered() == held + input.take(count)
            &&& after.accepted() == before.accepted() + input.take(count)
        } else {
            &&& Self::segment_emitted(before, after, held, 0, result)
            &&& result is Ok ==> after.accepted() == before.accepted()
        }
    }

    /// Takes some of `input`, or says that output must be written out before
    /// it can take any.
    ///
    /// After [`WriteStep::Emit`], write out [`Self::output`], report that with
    /// [`Self::output_written`], and, unless that took some of the input, call
    /// this again with the same input.
    ///
    /// # Errors
    ///
    /// Returns an error if the writer is finished or poisoned, the segment
    /// limit is reached, or random generation fails.
    pub fn write(&mut self, input: &[u8]) -> (result: Result<WriteStep, StreamError>)
        requires
            old(self).wf(),
        ensures
            final(self).wf(),
            Self::same_stream(*old(self), *final(self)),
            Self::written(*old(self), *final(self), input@, result),
    {
        if input.len() == 0 {
            return Ok(WriteStep::Accepted(0));
        }
        match self.status {
            StreamStatus::Open => {},
            StreamStatus::Finished => {
                return Err(StreamError::AlreadyFinished);
            },
            StreamStatus::Failed => {
                return Err(StreamError::Poisoned);
            },
        }
        if !matches!(self.pending, Pending::Nothing) {
            return Ok(WriteStep::Emit);
        }
        let capacity = self.parameters().plaintext_segment_length();
        let held = match self.buffer.plaintext_length() {
            Ok(held) => held,
            Err(_) => {
                if input.len() >= capacity {
                    let result = self.write_segment_direct(&input[0..capacity]);
                    return result;
                }
                0
            },
        };
        if held < capacity {
            let ghost before = *self;
            let copied = self.buffer.extend_plaintext(input);
            proof {
                self.accepted@ = self.accepted@ + input@.take(copied as int);
                assert(self.encrypted() =~= before.encrypted());
                assert(self.accepted() =~= self.encrypted() + self.buffered());
            }
            return Ok(WriteStep::Accepted(copied));
        }
        self.emit_non_final()
    }

    /// Encrypts the full segment that the buffer holds.
    fn emit_non_final(&mut self) -> (result: Result<WriteStep, StreamError>)
        requires
            old(self).wf(),
            old(self).status() is Open,
            old(self).pending() is Nothing,
            old(self).buffer().state() is Plaintext,
            old(self).buffered().len() == old(self).session().parameters.payload_length(),
        ensures
            final(self).wf(),
            Self::same_stream(*old(self), *final(self)),
            Self::segment_emitted(*old(self), *final(self), old(self).buffered(), 0, result),
            result is Ok ==> final(self).accepted() == old(self).accepted(),
    {
        let ghost before = *self;
        let mut encryptor = match self.encryptor.take() {
            Some(encryptor) => encryptor,
            None => {
                return Err(StreamError::Poisoned);
            },
        };
        let ghost counter = encryptor.counter();
        proof {
            encryptor.lemma_next_position();
        }
        match encryptor.encrypt_non_final_segment_in_place(&mut self.buffer) {
            Ok(_) => {},
            Err(error) => {
                self.status = StreamStatus::Failed;
                return Err(StreamError::Encryption(error));
            },
        }
        self.encryptor = Some(encryptor);
        self.pending = Pending::Segment { accepted: 0 };
        proof {
            let segment = self.buffer.ciphertext_view()->0;
            self.emitted@ = self.emitted@ + segment;
            self.lemma_segment_added(before, SegmentKind::NonFinal, before.buffered(), counter);
            assert(self.encrypted() =~= before.encrypted() + before.buffered());
        }
        Ok(WriteStep::Emit)
    }

    /// Encrypts one full non-final segment straight from the caller's input,
    /// skipping the staging copy into the segment buffer.
    fn write_segment_direct(&mut self, chunk: &[u8]) -> (result: Result<WriteStep, StreamError>)
        requires
            old(self).wf(),
            old(self).status() is Open,
            old(self).pending() is Nothing,
            !(old(self).buffer().state() is Plaintext),
            chunk@.len() == old(self).session().parameters.payload_length(),
        ensures
            final(self).wf(),
            Self::same_stream(*old(self), *final(self)),
            Self::segment_emitted(*old(self), *final(self), chunk@, chunk@.len() as usize, result),
            result is Ok ==> final(self).accepted() == old(self).accepted() + chunk@,
    {
        let ghost before = *self;
        let mut encryptor = match self.encryptor.take() {
            Some(encryptor) => encryptor,
            None => {
                return Err(StreamError::Poisoned);
            },
        };
        let ghost counter = encryptor.counter();
        proof {
            encryptor.lemma_next_position();
        }
        let written = match encryptor.encrypt_non_final_segment_into(chunk, self.buffer.raw_mut()) {
            Ok(written) => written,
            Err(error) => {
                self.status = StreamStatus::Failed;
                return Err(StreamError::Encryption(error));
            },
        };
        self.buffer.mark_ciphertext(written);
        self.encryptor = Some(encryptor);
        self.pending = Pending::Segment { accepted: chunk.len() };
        proof {
            let segment = self.buffer.ciphertext_view()->0;
            self.emitted@ = self.emitted@ + segment;
            self.accepted@ = self.accepted@ + chunk@;
            self.lemma_segment_added(before, SegmentKind::NonFinal, chunk@, counter);
            assert(self.encrypted() =~= before.encrypted() + chunk@);
        }
        Ok(WriteStep::Emit)
    }

    /// One more segment keeps a message decryptable.
    proof fn lemma_segment_added(
        &self,
        before: Self,
        kind: SegmentKind,
        piece: Seq<u8>,
        counter: SegmentCounter,
    )
        requires
            before.wf(),
            before.continues(),
            counter == before.encryptor()->0.counter(),
            counter.wf(),
            counter.error(kind) is None,
            self.session() == before.session(),
            crate::model::plaintext_error(
                before.session().parameters,
                kind,
                piece.len() as int,
            ) is None,
            self.buffer().state() is Ciphertext,
            before.session().encrypts(
                counter.next,
                kind,
                piece,
                self.buffer().ciphertext_view()->0,
            ),
            self.emitted() == before.emitted() + self.buffer().ciphertext_view()->0,
        ensures
            self.emitted().len() >= HEADER_LENGTH,
            self.emitted().take(HEADER_LENGTH as int) == before.emitted().take(
                HEADER_LENGTH as int,
            ),
            kind is NonFinal ==> opens_with(
                self.session(),
                self.emitted().skip(HEADER_LENGTH as int),
                before.encrypted() + piece,
                counter.advanced(SegmentKind::NonFinal),
            ),
            kind is Final ==> body_decrypted(
                self.session(),
                SegmentCounter::start(),
                self.emitted().skip(HEADER_LENGTH as int),
            ) == Ok::<Seq<u8>, Error>(before.encrypted() + piece),
    {
        let segment = self.buffer().ciphertext_view()->0;
        let body = before.emitted().skip(HEADER_LENGTH as int);
        lemma_opens_with_encrypted(
            before.session(),
            body,
            before.encrypted(),
            counter,
            kind,
            segment,
            piece,
        );
        assert(self.emitted().skip(HEADER_LENGTH as int) =~= body + segment);
        assert(self.emitted().take(HEADER_LENGTH as int) =~= before.emitted().take(
            HEADER_LENGTH as int,
        ));
    }

    /// The outcome of trying to finish the message.
    pub open spec fn finishing(
        before: Self,
        after: Self,
        result: Result<FinishStep, StreamError>,
    ) -> bool {
        if before.status() is Finished {
            &&& result == Ok::<FinishStep, StreamError>(FinishStep::Done)
            &&& after == before
        } else if before.status() is Failed {
            &&& result == Err::<FinishStep, StreamError>(StreamError::Poisoned)
            &&& after == before
        } else if !(before.pending() is Nothing) {
            &&& result == Ok::<FinishStep, StreamError>(FinishStep::Emit)
            &&& after == before
        } else {
            match result {
                Ok(step) => {
                    &&& step == FinishStep::Emit
                    &&& after.status() is Open
                    &&& after.pending() is Final
                    &&& after.session().encrypts(
                        before.encryptor()->0.counter().next,
                        SegmentKind::Final,
                        before.buffered(),
                        after.pending_bytes(),
                    )
                    &&& after.emitted() == before.emitted() + after.pending_bytes()
                    &&& after.accepted() == before.accepted()
                },
                Err(error) => {
                    &&& after.status() is Failed
                    &&& error == StreamError::Encryption(Error::RngFailure)
                    &&& !before.encryptor()->0.nonces().is_sure()
                },
            }
        }
    }

    /// Encrypts the final segment, or says that the message is complete.
    ///
    /// After [`FinishStep::Emit`], write out [`Self::output`], flush, report
    /// that with [`Self::output_written`], and call this again. It is
    /// idempotent after success. After an error, the writer is poisoned because
    /// the wrapped output may contain a partial segment.
    ///
    /// # Errors
    ///
    /// Returns an error if the writer is poisoned or final-segment encryption
    /// fails.
    pub fn try_finish(&mut self) -> (result: Result<FinishStep, StreamError>)
        requires
            old(self).wf(),
        ensures
            final(self).wf(),
            Self::same_stream(*old(self), *final(self)),
            Self::finishing(*old(self), *final(self), result),
    {
        match self.status {
            StreamStatus::Finished => {
                return Ok(FinishStep::Done);
            },
            StreamStatus::Failed => {
                return Err(StreamError::Poisoned);
            },
            StreamStatus::Open => {},
        }
        if !matches!(self.pending, Pending::Nothing) {
            return Ok(FinishStep::Emit);
        }
        self.finish_message()
    }

    fn finish_message(&mut self) -> (result: Result<FinishStep, StreamError>)
        requires
            old(self).wf(),
            old(self).status() is Open,
            old(self).pending() is Nothing,
        ensures
            final(self).wf(),
            Self::same_stream(*old(self), *final(self)),
            Self::finishing(*old(self), *final(self), result),
    {
        let ghost before = *self;
        let encryptor = match self.encryptor.take() {
            Some(encryptor) => encryptor,
            None => {
                return Err(StreamError::Poisoned);
            },
        };
        let ghost counter = encryptor.counter();
        proof {
            encryptor.lemma_next_position();
        }
        if self.buffer.plaintext_length().is_err() {
            // Nothing arrived since the last emitted segment, so the message
            // closes with an empty final payload.
            let _ = self.buffer.extend_plaintext(&[]);
        }
        match encryptor.encrypt_final_segment_in_place(&mut self.buffer) {
            Ok(_) => {},
            Err(failure) => {
                self.status = StreamStatus::Failed;
                return Err(StreamError::Encryption(failure.into_error()));
            },
        }
        self.pending = Pending::Final;
        proof {
            let segment = self.buffer.ciphertext_view()->0;
            self.emitted@ = self.emitted@ + segment;
            self.lemma_segment_added(before, SegmentKind::Final, before.buffered(), counter);
        }
        Ok(FinishStep::Emit)
    }

    /// Returns whether the wrapped writer may be flushed. A flush does not emit
    /// buffered plaintext.
    ///
    /// # Errors
    ///
    /// Returns an error if the writer is poisoned.
    pub fn flush(&self) -> (result: Result<(), StreamError>)
        ensures
            result == if self.status() is Failed {
                Err::<(), StreamError>(StreamError::Poisoned)
            } else {
                Ok::<(), StreamError>(())
            },
    {
        if matches!(self.status, StreamStatus::Failed) {
            return Err(StreamError::Poisoned);
        }
        Ok(())
    }

    /// Consumes this writer, with what finalization came to, and returns the
    /// wrapped writer.
    ///
    /// # Errors
    ///
    /// Returns the error of finalization along with the wrapped writer.
    pub fn finish<E>(self, result: Result<(), E>) -> (outcome: Result<W, FinishError<W, E>>)
        ensures
            FinishError::<W, E>::wrapped(result, self.inner(), outcome),
    {
        FinishError::wrap(result, self.inner)
    }

    /// Consumes this writer and extracts the wrapped writer without completing
    /// the FLOE message.
    ///
    /// The result is likely a truncated, invalid FLOE ciphertext.
    pub fn into_inner_unfinished(self) -> (inner: W)
        ensures
            inner == self.inner(),
    {
        self.inner
    }
}

} // verus!
