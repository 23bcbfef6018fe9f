//! Runs of the decrypting reader: what any sequence of operations on it comes
//! to, whatever buffers it is read with and however its source delivers.

use crate::counter::SegmentCounter;
use crate::error::{Error, LengthRequirement};
use crate::integrity::segment_rejected;
use crate::io::{
    lesser, DecryptReader, DrainStep, ReadStep, SegmentFetch, StreamError, StreamStatus,
};
use crate::layout::SegmentFraming;
use crate::message::{
    body_decrypted, lemma_body_stops, lemma_first_segment_of_body, lemma_full_segments,
    lemma_segment_of_body, message_decrypted, opens_with, segment_length_at,
};
use crate::online::{segment_kind, segment_prefix_value};
use crate::parameters::{SEGMENT_OVERHEAD, SEGMENT_PREFIX_LENGTH};
use crate::wire_format::{lemma_numbers_are_big_endian, number32};
use vstd::prelude::*;

verus! {

/// What is done with a [`DecryptReader`].
pub enum DecryptReaderEvent {
    /// It is read into `space`, which leaves `output`.
    Read { space: Seq<u8>, output: Seq<u8>, result: Result<ReadStep, StreamError> },
    /// It is told to authenticate the unread remainder.
    Drain { drained: Result<DrainStep, StreamError> },
    /// `bytes` are put where input is read to.
    Fill { bytes: Seq<u8> },
    /// It is told that `read` bytes of input were read.
    Record { read: usize, recorded: Result<(), StreamError> },
}

impl DecryptReaderEvent {
    /// The bytes that this hands to the caller.
    pub open spec fn returned(self) -> Seq<u8> {
        match self {
            DecryptReaderEvent::Read {
                output,
                result: Ok(ReadStep::Served(count)),
                ..
            } => output.take(count as int),
            _ => Seq::empty(),
        }
    }

    /// Whether this ends in an error.
    pub open spec fn fails(self) -> bool {
        match self {
            DecryptReaderEvent::Read { result, .. } => result is Err,
            DecryptReaderEvent::Drain { drained } => drained is Err,
            DecryptReaderEvent::Fill { .. } => false,
            DecryptReaderEvent::Record { recorded, .. } => recorded is Err,
        }
    }
}

/// The bytes that events hand to the caller, in order.
pub open spec fn plaintext_returned(events: Seq<DecryptReaderEvent>) -> Seq<u8>
    decreases events.len(),
{
    if events.len() == 0 {
        Seq::empty()
    } else {
        plaintext_returned(events.drop_last()) + events.last().returned()
    }
}

impl<R> DecryptReader<R> {
    /// The next `read` bytes that were put where input is read to are those of
    /// `stream`, and there are none only at its end.
    pub open spec fn fed_by(&self, stream: Seq<u8>, read: int) -> bool {
        let start = self.taken().len() as int;
        &&& start + read <= stream.len()
        &&& self.target().take(read) == stream.subrange(start, start + read)
        &&& read == 0 && self.target().len() > 0 ==> start == stream.len()
    }

    /// One operation on a reader whose source delivers `stream`.
    pub open spec fn step(
        before: Self,
        after: Self,
        stream: Seq<u8>,
        event: DecryptReaderEvent,
    ) -> bool {
        match event {
            DecryptReaderEvent::Read { space, output, result } => {
                &&& after.wf()
                &&& Self::same_stream(before, after)
                &&& output.len() == space.len() <= usize::MAX
                &&& Self::read_outcome(before, after, space, output, result)
            },
            DecryptReaderEvent::Drain { drained } => {
                &&& after.wf()
                &&& Self::same_stream(before, after)
                &&& Self::drained(before, after, drained)
            },
            DecryptReaderEvent::Fill { bytes } => {
                &&& before.status() is Open
                &&& bytes.len() == before.target().len()
                &&& Self::same_progress(before, after)
                &&& Self::input_filled(before, after, bytes)
            },
            DecryptReaderEvent::Record { read, recorded } => {
                &&& before.status() is Open
                &&& read <= before.target().len()
                &&& before.fed_by(stream, read as int)
                &&& after.wf()
                &&& Self::same_stream(before, after)
                &&& Self::input_recorded(before, after, read as int, recorded)
            },
        }
    }

    /// `states` are those of a reader through `events`, from its creation on.
    pub open spec fn run(
        states: Seq<Self>,
        stream: Seq<u8>,
        events: Seq<DecryptReaderEvent>,
    ) -> bool {
        &&& states.len() == events.len() + 1
        &&& states[0].fresh()
        &&& forall|k: int|
            0 <= k < events.len() ==> Self::step(
                #[trigger] states[k],
                states[k + 1],
                stream,
                events[k],
            )
    }

    proof fn lemma_earlier_run(
        states: Seq<Self>,
        stream: Seq<u8>,
        events: Seq<DecryptReaderEvent>,
    )
        requires
            Self::run(states, stream, events),
            events.len() > 0,
        ensures
            Self::run(states.drop_last(), stream, events.drop_last()),
            Self::step(states[states.len() - 2], states.last(), stream, events.last()),
    {
        let earlier = states.drop_last();
        assert forall|k: int| 0 <= k < events.drop_last().len() implies Self::step(
            #[trigger] earlier[k],
            earlier[k + 1],
            stream,
            events.drop_last()[k],
        ) by {
            assert(Self::step(states[k], states[k + 1], stream, events[k]));
        }
        let k = events.len() - 1;
        assert(Self::step(states[k], states[k + 1], stream, events[k]));
    }

    /// The rest of a body that decrypts, after the segments that are decrypted,
    /// gives the rest of the plaintext.
    proof fn lemma_rest(&self, body: Seq<u8>, plaintext: Seq<u8>)
        requires
            self.wf(),
            self.status() is Open,
            self.decrypted().is_prefix_of(body),
            body_decrypted(self.session(), SegmentCounter::start(), body) == Ok::<Seq<u8>, Error>(
                plaintext,
            ),
        ensures
            self.opened().is_prefix_of(plaintext),
            !self.decryptor()->0.counter().closed,
            body_decrypted(
                self.session(),
                self.decryptor()->0.counter(),
                body.skip(self.decrypted().len() as int),
            ) == Ok::<Seq<u8>, Error>(plaintext.skip(self.opened().len() as int)),
    {
        reveal(opens_with);
        let rest = body.skip(self.decrypted().len() as int);
        let given = body_decrypted(self.session(), self.decryptor()->0.counter(), rest);
        assert(self.decrypted() + rest =~= body);
        assert(plaintext == self.opened() + given->Ok_0);
        assert(plaintext.skip(self.opened().len() as int) =~= given->Ok_0);
        assert(self.opened() =~= plaintext.take(self.opened().len() as int));
    }

    /// The next segment of a body that decrypts.
    proof fn lemma_segment_ahead(&self, body: Seq<u8>, plaintext: Seq<u8>)
        requires
            self.wf(),
            self.status() is Open,
            self.decrypted().is_prefix_of(body),
            body_decrypted(self.session(), SegmentCounter::start(), body) == Ok::<Seq<u8>, Error>(
                plaintext,
            ),
        ensures
            ({
                let done = self.decrypted().len() as int;
                let length = segment_length_at(self.session().parameters, body, done);
                let rest = body.skip(done);
                &&& SEGMENT_OVERHEAD <= length <= body.len() - done
                &&& SegmentFraming::declared_length(
                    self.session().parameters,
                    segment_prefix_value(rest),
                ) == length
                &&& segment_kind(rest) is Final <==> done + length == body.len()
            }),
    {
        let counter = self.decryptor()->0.counter();
        let rest = body.skip(self.decrypted().len() as int);
        self.lemma_rest(body, plaintext);
        lemma_first_segment_of_body(
            self.session(),
            counter.next,
            rest,
            plaintext.skip(self.opened().len() as int),
        );
        lemma_body_stops(self.session(), counter, rest);
    }

    /// A reader stands in a stream whose next segment is that of a body that
    /// decrypts.
    spec fn segment_intact(
        &self,
        stream: Seq<u8>,
        body: Seq<u8>,
        plaintext: Seq<u8>,
        intact: int,
    ) -> bool {
        let done = self.decrypted().len() as int;
        &&& self.wf()
        &&& self.status() is Open
        &&& self.taken().is_prefix_of(stream)
        &&& 0 <= intact <= stream.len()
        &&& intact <= body.len()
        &&& stream.take(intact) == body.take(intact)
        &&& self.decrypted().is_prefix_of(body)
        &&& body_decrypted(self.session(), SegmentCounter::start(), body) == Ok::<Seq<u8>, Error>(
            plaintext,
        )
        &&& done + segment_length_at(self.session().parameters, body, done) <= intact
    }

    /// What is held of the next segment is what the body has there.
    proof fn lemma_held_intact(
        &self,
        stream: Seq<u8>,
        body: Seq<u8>,
        plaintext: Seq<u8>,
        intact: int,
    )
        requires
            self.segment_intact(stream, body, plaintext, intact),
        ensures
            ({
                let done = self.decrypted().len() as int;
                let prefix = body.skip(done).take(SEGMENT_PREFIX_LENGTH as int);
                &&& self.held() == stream.subrange(done, done + self.held().len())
                &&& stream.subrange(done, done + SEGMENT_PREFIX_LENGTH) == prefix
                &&& self.held().len() >= SEGMENT_PREFIX_LENGTH ==> self.held().take(
                    SEGMENT_PREFIX_LENGTH as int,
                ) == prefix
            }),
    {
        let done = self.decrypted().len() as int;
        let prefix = body.skip(done).take(SEGMENT_PREFIX_LENGTH as int);
        self.lemma_segment_ahead(body, plaintext);
        assert(stream.subrange(done, done + SEGMENT_PREFIX_LENGTH) =~= stream.take(
            intact,
        ).subrange(done, done + SEGMENT_PREFIX_LENGTH));
        assert(body.take(intact).subrange(done, done + SEGMENT_PREFIX_LENGTH) =~= prefix);
        assert(self.held() =~= self.taken().skip(done));
        assert(self.taken() =~= stream.take(self.taken().len() as int));
        assert(self.held() =~= stream.subrange(done, done + self.held().len()));
        if self.held().len() >= SEGMENT_PREFIX_LENGTH {
            assert(self.held().take(SEGMENT_PREFIX_LENGTH as int) =~= stream.subrange(
                done,
                done + SEGMENT_PREFIX_LENGTH,
            ));
        }
    }

    /// Reading a segment that is intact does not fail.
    proof fn lemma_intact_input(
        &self,
        stream: Seq<u8>,
        body: Seq<u8>,
        plaintext: Seq<u8>,
        intact: int,
        read: int,
    )
        requires
            self.segment_intact(stream, body, plaintext, intact),
            0 <= read <= self.target().len(),
            self.fed_by(stream, read),
        ensures
            self.input_error(read) is None,
    {
        let done = self.decrypted().len() as int;
        self.lemma_segment_ahead(body, plaintext);
        self.lemma_held_intact(stream, body, plaintext, intact);
        match self.fetch() {
            SegmentFetch::Prefix(_) => {
                if read == self.target().len() {
                    let more = body.skip(done + SEGMENT_PREFIX_LENGTH);
                    let start = self.taken().len() as int;
                    assert(self.target().take(read) =~= self.target());
                    assert(self.held() + self.target() =~= stream.subrange(
                        done,
                        done + SEGMENT_PREFIX_LENGTH,
                    ));
                    assert(self.taken() + self.target() =~= self.decrypted() + (self.held()
                        + self.target()));
                    assert(self.taken() + self.target() + more =~= body);
                    self.lemma_valid_prefix_is_read(read, more);
                }
            },
            SegmentFetch::Body { framing, .. } => {
                let view = self.buffer().ciphertext_view()->0;
                assert(view.take(SEGMENT_PREFIX_LENGTH as int) =~= self.held().take(
                    SEGMENT_PREFIX_LENGTH as int,
                ));
            },
            _ => {},
        }
    }

    /// A segment that is intact is accepted.
    proof fn lemma_intact_segment(
        &self,
        stream: Seq<u8>,
        body: Seq<u8>,
        plaintext: Seq<u8>,
        intact: int,
        framing: SegmentFraming,
    )
        requires
            self.segment_intact(stream, body, plaintext, intact),
            self.fetch() == (SegmentFetch::Ready { framing }),
        ensures
            ({
                let done = self.decrypted().len() as int;
                let end = done + segment_length_at(self.session().parameters, body, done);
                &&& self.taken().len() == end
                &&& framing.kind() is Final <==> end == body.len()
                &&& self.next_plaintext(framing) is Ok
                &&& framing.kind() is Final ==> self.taken() == body && plaintext == self.opened()
                    + self.next_plaintext(framing)->Ok_0
            }),
    {
        let done = self.decrypted().len() as int;
        let length = segment_length_at(self.session().parameters, body, done);
        self.lemma_segment_ahead(body, plaintext);
        self.lemma_held_intact(stream, body, plaintext, intact);
        assert(self.held().len() == length);
        let more = body.skip(done + length);
        assert(self.taken() =~= stream.take(intact).take(done + length));
        assert(body.take(intact).take(done + length) + more =~= body);
        self.lemma_valid_message_is_read(framing, more, plaintext);
        if framing.kind() is Final {
            assert(self.taken() + more =~= self.taken());
        }
    }

    /// Where a reader stands in a stream that starts with a body that decrypts.
    spec fn on_valid_course(&self, stream: Seq<u8>, body: Seq<u8>, plaintext: Seq<u8>) -> bool {
        &&& self.taken().is_prefix_of(stream)
        &&& match self.status() {
            StreamStatus::Open => self.decrypted().is_prefix_of(body),
            StreamStatus::Finished => self.taken() == body && self.opened() == plaintext,
            StreamStatus::Failed => false,
        }
    }

    proof fn lemma_valid_step(
        before: Self,
        after: Self,
        stream: Seq<u8>,
        event: DecryptReaderEvent,
        body: Seq<u8>,
        plaintext: Seq<u8>,
    )
        requires
            before.wf(),
            body.is_prefix_of(stream),
            body_decrypted(before.session(), SegmentCounter::start(), body) == Ok::<
                Seq<u8>,
                Error,
            >(plaintext),
            before.on_valid_course(stream, body, plaintext),
            Self::step(before, after, stream, event),
        ensures
            after.wf(),
            after.session() == before.session(),
            !event.fails(),
            after.on_valid_course(stream, body, plaintext),
    {
        let intact = body.len() as int;
        Self::lemma_step_takes(before, after, stream, event);
        if before.status() is Open {
            assert(stream.take(intact) =~= body.take(intact));
            before.lemma_segment_ahead(body, plaintext);
            assert(before.segment_intact(stream, body, plaintext, intact));
            if let DecryptReaderEvent::Record { read, .. } = event {
                before.lemma_intact_input(stream, body, plaintext, intact, read as int);
            }
            if let SegmentFetch::Ready { framing } = before.fetch() {
                before.lemma_intact_segment(stream, body, plaintext, intact, framing);
            }
            if after.status() is Open {
                assert(after.decrypted() =~= stream.take(after.decrypted().len() as int));
                assert(after.decrypted() =~= body.take(after.decrypted().len() as int));
            }
        }
    }

    /// A reader takes what the source delivers, and moves on by whole segments.
    proof fn lemma_step_takes(before: Self, after: Self, stream: Seq<u8>, event: DecryptReaderEvent)
        requires
            before.wf(),
            before.taken().is_prefix_of(stream),
            !(before.status() is Failed),
            Self::step(before, after, stream, event),
        ensures
            after.session() == before.session(),
            after.wf(),
            !(after.status() is Failed) ==> after.taken().is_prefix_of(stream),
            before.status() is Open && after.status() is Open ==> after.decrypted().len()
                == before.decrypted().len() || before.fetch() is Ready && after.decrypted().len()
                == before.taken().len(),
    {
        if !(after.status() is Failed) {
            match event {
                DecryptReaderEvent::Read { space, output, result } => {
                    Self::lemma_read_takes(before, after, space, output, result);
                },
                DecryptReaderEvent::Drain { drained } => {
                    Self::lemma_drain_takes(before, after, drained);
                },
                DecryptReaderEvent::Fill { bytes } => {
                    assert(after.taken() == before.taken());
                },
                DecryptReaderEvent::Record { read, recorded } => {
                    Self::lemma_record_takes(before, after, stream, read as int, recorded);
                },
            }
        }
    }

    proof fn lemma_record_takes(
        before: Self,
        after: Self,
        stream: Seq<u8>,
        read: int,
        recorded: Result<(), StreamError>,
    )
        requires
            before.taken().is_prefix_of(stream),
            0 <= read <= before.target().len(),
            before.fed_by(stream, read),
            !(after.status() is Failed),
            Self::input_recorded(before, after, read, recorded),
        ensures
            after.taken().is_prefix_of(stream),
            after.decrypted() == before.decrypted(),
    {
        assert(after.taken() =~= stream.take(after.taken().len() as int));
    }

    proof fn lemma_read_takes(
        before: Self,
        after: Self,
        space: Seq<u8>,
        output: Seq<u8>,
        result: Result<ReadStep, StreamError>,
    )
        requires
            before.wf(),
            after.wf(),
            !(before.status() is Failed),
            !(after.status() is Failed),
            Self::read_outcome(before, after, space, output, result),
        ensures
            after.taken() == before.taken(),
            before.status() is Open && after.status() is Open ==> after.decrypted().len()
                == before.decrypted().len() || before.fetch() is Ready && after.decrypted().len()
                == before.taken().len(),
    {
    }

    proof fn lemma_drain_takes(before: Self, after: Self, drained: Result<DrainStep, StreamError>)
        requires
            before.wf(),
            after.wf(),
            !(before.status() is Failed),
            !(after.status() is Failed),
            after.session() == before.session(),
            Self::drained(before, after, drained),
        ensures
            after.taken() == before.taken(),
            before.status() is Open && after.status() is Open ==> after.decrypted().len()
                == before.decrypted().len() || before.fetch() is Ready && after.decrypted().len()
                == before.taken().len(),
    {
        if before.status() is Open && after.status() is Open {
            before.decryptor()->0.lemma_next_position();
            lemma_full_segments(
                before.session().parameters,
                before.decryptor()->0.counter(),
                before.decrypted().len() as int,
                before.opened().len() as int,
                0,
            );
        }
    }

    /// A message that decrypts is read without an error, whatever buffers it is
    /// read with and however much of its end is only authenticated, and nothing
    /// that follows it is taken. Once the reader has finished, it has taken the
    /// message and no more, and has authenticated all its plaintext.
    pub proof fn lemma_valid_run(
        states: Seq<Self>,
        stream: Seq<u8>,
        events: Seq<DecryptReaderEvent>,
        body: Seq<u8>,
        plaintext: Seq<u8>,
    )
        requires
            Self::run(states, stream, events),
            body.is_prefix_of(stream),
            body_decrypted(states[0].session(), SegmentCounter::start(), body) == Ok::<
                Seq<u8>,
                Error,
            >(plaintext),
        ensures
            forall|k: int| 0 <= k < events.len() ==> !(#[trigger] events[k]).fails(),
            states.last().wf(),
            states.last().session() == states[0].session(),
            !(states.last().status() is Failed),
            states.last().taken().is_prefix_of(body),
            states.last().opened().is_prefix_of(plaintext),
            states.last().status() is Finished ==> states.last().taken() == body
                && states.last().opened() == plaintext,
    {
        Self::lemma_valid_run_on_course(states, stream, events, body, plaintext);
        let last = states.last();
        if last.status() is Open {
            let intact = body.len() as int;
            assert(stream.take(intact) =~= body.take(intact));
            last.lemma_segment_ahead(body, plaintext);
            last.lemma_rest(body, plaintext);
            assert(last.segment_intact(stream, body, plaintext, intact));
            last.lemma_taken_intact(stream, body, plaintext, intact);
            assert(last.taken() =~= body.take(last.taken().len() as int));
        }
    }

    #[verifier::rlimit(30)]
    proof fn lemma_valid_run_on_course(
        states: Seq<Self>,
        stream: Seq<u8>,
        events: Seq<DecryptReaderEvent>,
        body: Seq<u8>,
        plaintext: Seq<u8>,
    )
        requires
            Self::run(states, stream, events),
            body.is_prefix_of(stream),
            body_decrypted(states[0].session(), SegmentCounter::start(), body) == Ok::<
                Seq<u8>,
                Error,
            >(plaintext),
        ensures
            forall|k: int| 0 <= k < events.len() ==> !(#[trigger] events[k]).fails(),
            states.last().wf(),
            states.last().session() == states[0].session(),
            states.last().on_valid_course(stream, body, plaintext),
        decreases events.len(),
    {
        if events.len() == 0 {
            assert(states[0].decrypted() =~= Seq::empty());
        } else {
            let k = events.len() - 1;
            let earlier = events.drop_last();
            Self::lemma_earlier_run(states, stream, events);
            Self::lemma_valid_run_on_course(
                states.drop_last(),
                stream,
                earlier,
                body,
                plaintext,
            );
            Self::lemma_valid_step(states[k], states[k + 1], stream, events[k], body, plaintext);
            assert forall|i: int| 0 <= i < events.len() implies !(#[trigger] events[i]).fails() by {
                if i < k {
                    assert(!earlier[i].fails());
                }
            }
        }
    }

    /// What a reader hands out until it says that it has ended is the plaintext
    /// of the message that its source delivers, whatever buffers it is read
    /// with. The reader has then finished, and nothing after the message is
    /// taken.
    pub proof fn lemma_complete_run(
        states: Seq<Self>,
        stream: Seq<u8>,
        events: Seq<DecryptReaderEvent>,
        body: Seq<u8>,
        plaintext: Seq<u8>,
    )
        requires
            Self::run(states, stream, events),
            body.is_prefix_of(stream),
            body_decrypted(states[0].session(), SegmentCounter::start(), body) == Ok::<
                Seq<u8>,
                Error,
            >(plaintext),
            forall|k: int| 0 <= k < events.len() ==> !((#[trigger] events[k]) is Drain),
            events.len() > 0,
            events.last() matches DecryptReaderEvent::Read { space, result, .. } && space.len() > 0
                && result == Ok::<ReadStep, StreamError>(ReadStep::Served(0)),
        ensures
            states.last().status() is Finished,
            states.last().available().len() == 0,
            states.last().taken() == body,
            plaintext_returned(events) == plaintext,
    {
        let before = states[states.len() - 2];
        let last = states.last();
        Self::lemma_earlier_run(states, stream, events);
        Self::lemma_valid_run_on_course(
            states.drop_last(),
            stream,
            events.drop_last(),
            body,
            plaintext,
        );
        Self::lemma_valid_run_on_course(states, stream, events, body, plaintext);
        Self::lemma_valid_run_returns(states, stream, events, body, plaintext);
        if before.status() is Open && last.status() is Open {
            before.decryptor()->0.lemma_next_position();
            lemma_full_segments(
                before.session().parameters,
                before.decryptor()->0.counter(),
                before.decrypted().len() as int,
                before.opened().len() as int,
                0,
            );
        }
        assert(last.opened().take(last.position()) =~= plaintext);
    }

    proof fn lemma_valid_run_returns(
        states: Seq<Self>,
        stream: Seq<u8>,
        events: Seq<DecryptReaderEvent>,
        body: Seq<u8>,
        plaintext: Seq<u8>,
    )
        requires
            Self::run(states, stream, events),
            body.is_prefix_of(stream),
            body_decrypted(states[0].session(), SegmentCounter::start(), body) == Ok::<
                Seq<u8>,
                Error,
            >(plaintext),
            forall|k: int| 0 <= k < events.len() ==> !((#[trigger] events[k]) is Drain),
        ensures
            plaintext_returned(events) == states.last().opened().take(states.last().position()),
        decreases events.len(),
    {
        let first = states[0];
        if events.len() == 0 {
            assert(first.opened().take(first.position()) =~= Seq::empty());
        } else {
            let k = events.len() - 1;
            let earlier = events.drop_last();
            Self::lemma_earlier_run(states, stream, events);
            assert forall|i: int| 0 <= i < earlier.len() implies !((
            #[trigger] earlier[i]) is Drain) by {
                assert(!(events[i] is Drain));
            }
            Self::lemma_valid_run_on_course(states.drop_last(), stream, earlier, body, plaintext);
            Self::lemma_valid_run_on_course(states, stream, events, body, plaintext);
            Self::lemma_valid_run_returns(states.drop_last(), stream, earlier, body, plaintext);
            assert(!(events[k] is Drain));
            Self::lemma_step_returns(states[k], states[k + 1], stream, events[k]);
        }
    }

    /// No more is taken than the segment that is intact.
    proof fn lemma_taken_intact(
        &self,
        stream: Seq<u8>,
        body: Seq<u8>,
        plaintext: Seq<u8>,
        intact: int,
    )
        requires
            self.segment_intact(stream, body, plaintext, intact),
        ensures
            self.taken().len() <= intact,
    {
        self.lemma_segment_ahead(body, plaintext);
        self.lemma_held_intact(stream, body, plaintext, intact);
        match self.fetch() {
            SegmentFetch::Body { framing, .. } => {
                let view = self.buffer().ciphertext_view()->0;
                assert(view.take(SEGMENT_PREFIX_LENGTH as int) =~= self.held().take(
                    SEGMENT_PREFIX_LENGTH as int,
                ));
            },
            SegmentFetch::Ready { framing } => {
                self.lemma_intact_segment(stream, body, plaintext, intact, framing);
            },
            _ => {},
        }
    }

    /// Finishing requires that nothing follows the message. Where a reader has
    /// finished a message that decrypts, and one more byte is asked for, then
    /// finishing succeeds exactly where there is none, and leaves the reader as
    /// it was, so that it can be repeated; else the data is invalid, and the
    /// reader is poisoned.
    pub proof fn lemma_finish(
        states: Seq<Self>,
        events: Seq<DecryptReaderEvent>,
        body: Seq<u8>,
        plaintext: Seq<u8>,
        more: Seq<u8>,
        trailing: usize,
        after: Self,
        result: Result<(), StreamError>,
    )
        requires
            Self::run(states, body + more, events),
            body_decrypted(states[0].session(), SegmentCounter::start(), body) == Ok::<
                Seq<u8>,
                Error,
            >(plaintext),
            states.last().status() is Finished,
            trailing == 0 <==> more.len() == 0,
            Self::finishing(states.last(), after, trailing, result),
        ensures
            states.last().taken() == body,
            states.last().opened() == plaintext,
            more.len() == 0 ==> result == Ok::<(), StreamError>(()) && after == states.last(),
            more.len() > 0 ==> result == Err::<(), StreamError>(StreamError::TrailingData)
                && after.status() is Failed,
            result matches Err(error) ==> error.kind() is InvalidData,
    {
        assert(body =~= (body + more).take(body.len() as int));
        Self::lemma_valid_run(states, body + more, events, body, plaintext);
    }

    /// A poisoned reader stays poisoned: it takes no input, a read fails unless
    /// it asks for nothing, and so does authenticating the remainder.
    pub proof fn lemma_poisoned_step(
        before: Self,
        after: Self,
        stream: Seq<u8>,
        event: DecryptReaderEvent,
    )
        requires
            before.status() is Failed,
            Self::step(before, after, stream, event),
        ensures
            after == before,
            match event {
                DecryptReaderEvent::Read { space, output, result } => output == space && result
                    == if space.len() == 0 {
                    Ok::<ReadStep, StreamError>(ReadStep::Served(0))
                } else {
                    Err::<ReadStep, StreamError>(StreamError::Poisoned)
                },
                DecryptReaderEvent::Drain { drained } => drained == Err::<DrainStep, StreamError>(
                    StreamError::Poisoned,
                ),
                _ => false,
            },
    {
    }

    /// Where a reader stands in a stream that is damaged in the segment at
    /// `index`.
    spec fn on_damaged_course(&self, stream: Seq<u8>, index: int) -> bool {
        &&& self.status() is Open
        &&& self.taken().is_prefix_of(stream)
        &&& self.decrypted().len() <= index * self.session().parameters.segment_length()
    }

    /// A stream has the segments of a body that decrypts before the one at
    /// `index`, and there it has something that is rejected.
    pub open spec fn damaged_at(
        &self,
        stream: Seq<u8>,
        body: Seq<u8>,
        plaintext: Seq<u8>,
        index: int,
    ) -> bool {
        let start = index * self.session().parameters.segment_length();
        &&& body_decrypted(self.session(), SegmentCounter::start(), body) == Ok::<Seq<u8>, Error>(
            plaintext,
        )
        &&& 0 <= index <= u64::MAX
        &&& start < body.len()
        &&& start <= stream.len()
        &&& stream.take(start) == body.take(start)
        &&& segment_rejected(self.session(), index as u64, stream.skip(start))
    }

    /// How many segments are decrypted, in bytes.
    proof fn lemma_damaged_position(
        &self,
        stream: Seq<u8>,
        body: Seq<u8>,
        plaintext: Seq<u8>,
        index: int,
    )
        requires
            self.wf(),
            self.damaged_at(stream, body, plaintext, index),
            self.on_damaged_course(stream, index),
        ensures
            ({
                let size = self.session().parameters.segment_length();
                let payload = self.session().parameters.payload_length();
                let next = self.decryptor()->0.counter().next as int;
                &&& self.decrypted().is_prefix_of(body)
                &&& self.opened().is_prefix_of(plaintext)
                &&& next <= index
                &&& self.decrypted().len() == next * size
                &&& self.opened().len() == next * payload
                &&& next * payload <= index * payload
                &&& next < index ==> (next + 1) * size <= index * size && (next + 1) * size == next
                    * size + size && self.segment_intact(
                    stream,
                    body,
                    plaintext,
                    index * size,
                )
            }),
    {
        let size = self.session().parameters.segment_length();
        let payload = self.session().parameters.payload_length();
        let next = self.decryptor()->0.counter().next as int;
        let start = index * size;
        if next > index {
            assert((index + 1) * size <= next * size) by (nonlinear_arith)
                requires
                    index + 1 <= next,
                    0 <= size,
            ;
            assert((index + 1) * size == index * size + size) by (nonlinear_arith);
        }
        assert(next * payload <= index * payload) by (nonlinear_arith)
            requires
                next <= index,
                0 <= payload,
        ;
        assert(self.decrypted() =~= stream.take(start).take(self.decrypted().len() as int));
        assert(self.decrypted() =~= body.take(start).take(self.decrypted().len() as int));
        assert(self.decrypted() =~= body.take(self.decrypted().len() as int));
        self.lemma_rest(body, plaintext);
        if next < index {
            assert((next + 1) * size <= index * size) by (nonlinear_arith)
                requires
                    next + 1 <= index,
                    0 <= size,
            ;
            assert((next + 1) * size == next * size + size) by (nonlinear_arith);
        }
    }

    /// The segment that is there is the damaged one, and is not accepted.
    proof fn lemma_damaged_segment(
        &self,
        stream: Seq<u8>,
        body: Seq<u8>,
        plaintext: Seq<u8>,
        index: int,
        framing: SegmentFraming,
    )
        requires
            self.wf(),
            self.damaged_at(stream, body, plaintext, index),
            self.on_damaged_course(stream, index),
            self.decryptor()->0.counter().next == index,
            self.fetch() == (SegmentFetch::Ready { framing }),
        ensures
            self.next_plaintext(framing) is Err,
    {
        let done = self.decrypted().len() as int;
        let rest = stream.skip(done);
        self.lemma_rest_is_open();
        assert(self.held() =~= self.taken().skip(done));
        assert(self.taken() =~= stream.take(self.taken().len() as int));
        assert(self.held() =~= rest.take(self.held().len() as int));
        assert(self.held().take(SEGMENT_PREFIX_LENGTH as int) =~= rest.take(
            SEGMENT_PREFIX_LENGTH as int,
        ));
    }

    proof fn lemma_rest_is_open(&self)
        requires
            self.wf(),
            self.status() is Open,
        ensures
            !self.decryptor()->0.counter().closed,
    {
        reveal(opens_with);
    }

    proof fn lemma_damaged_step(
        before: Self,
        after: Self,
        stream: Seq<u8>,
        event: DecryptReaderEvent,
        body: Seq<u8>,
        plaintext: Seq<u8>,
        index: int,
    )
        requires
            before.wf(),
            before.damaged_at(stream, body, plaintext, index),
            before.on_damaged_course(stream, index),
            Self::step(before, after, stream, event),
        ensures
            after.wf(),
            after.session() == before.session(),
            event.fails() ==> {
                &&& after.status() is Failed
                &&& before.available().len() == 0
                &&& before.opened() == plaintext.take(
                    index * before.session().parameters.payload_length(),
                )
            },
            !event.fails() ==> after.on_damaged_course(stream, index),
    {
        let size = before.session().parameters.segment_length();
        let next = before.decryptor()->0.counter().next as int;
        Self::lemma_step_takes(before, after, stream, event);
        before.lemma_damaged_position(stream, body, plaintext, index);
        if next < index {
            let intact = index * size;
            if let DecryptReaderEvent::Record { read, .. } = event {
                before.lemma_intact_input(stream, body, plaintext, intact, read as int);
            }
            if let SegmentFetch::Ready { framing } = before.fetch() {
                before.lemma_intact_segment(stream, body, plaintext, intact, framing);
            }
        } else {
            if let SegmentFetch::Ready { framing } = before.fetch() {
                before.lemma_damaged_segment(stream, body, plaintext, index, framing);
            }
            assert(before.opened() =~= plaintext.take(before.opened().len() as int));
        }
    }

    /// What a reader hands out is what it has authenticated, as far as it is
    /// served.
    proof fn lemma_step_returns(
        before: Self,
        after: Self,
        stream: Seq<u8>,
        event: DecryptReaderEvent,
    )
        requires
            before.wf(),
            !(before.status() is Failed),
            !(after.status() is Failed),
            !(event is Drain),
            Self::step(before, after, stream, event),
        ensures
            after.opened().take(after.position()) == before.opened().take(before.position())
                + event.returned(),
    {
        match event {
            DecryptReaderEvent::Read { space, output, result } => {
                Self::lemma_read_returns(before, after, space, output, result);
            },
            _ => {
                assert(after.opened().take(after.position()) =~= before.opened().take(
                    before.position(),
                ) + event.returned());
            },
        }
    }

    proof fn lemma_read_returns(
        before: Self,
        after: Self,
        space: Seq<u8>,
        output: Seq<u8>,
        result: Result<ReadStep, StreamError>,
    )
        requires
            before.wf(),
            after.wf(),
            !(before.status() is Failed),
            !(after.status() is Failed),
            output.len() == space.len() <= usize::MAX,
            Self::read_outcome(before, after, space, output, result),
        ensures
            after.opened().take(after.position()) == before.opened().take(before.position())
                + (DecryptReaderEvent::Read { space, output, result }).returned(),
    {
        let returned = (DecryptReaderEvent::Read { space, output, result }).returned();
        let earlier = before.opened().take(before.position());
        let count = lesser(space.len() as int, before.available().len() as int);
        if space.len() > 0 && before.available().len() > 0 {
            assert(returned =~= before.opened().skip(before.position()).take(count));
            assert(after.opened().take(after.position()) =~= earlier + returned);
        } else if space.len() > 0 && before.status() is Open && before.fetch() is Ready {
            assert(earlier =~= before.opened());
            assert(after.opened().take(after.position()) =~= earlier + returned);
        } else {
            assert(after.opened().take(after.position()) =~= earlier + returned);
        }
    }

    /// Of a damaged message, exactly the plaintext before the damage is served.
    /// Where a stream has the segments of a message before the one at `index`,
    /// and there it is cut short or has something that is not authentic, then
    /// whatever buffers it is read with, a reader hands out nothing but the
    /// plaintext of those segments and never comes to an end. Once it fails, it
    /// has handed out all that plaintext, and is poisoned.
    #[verifier::rlimit(30)]
    pub proof fn lemma_damaged_run(
        states: Seq<Self>,
        stream: Seq<u8>,
        events: Seq<DecryptReaderEvent>,
        body: Seq<u8>,
        plaintext: Seq<u8>,
        index: int,
    )
        requires
            Self::run(states, stream, events),
            states[0].damaged_at(stream, body, plaintext, index),
            forall|k: int| 0 <= k < events.len() ==> !((#[trigger] events[k]) is Drain),
            forall|k: int| 0 <= k < events.len() - 1 ==> !(#[trigger] events[k]).fails(),
        ensures
            ({
                let intact = plaintext.take(
                    index * states[0].session().parameters.payload_length(),
                );
                if events.len() > 0 && events.last().fails() {
                    &&& states.last().status() is Failed
                    &&& plaintext_returned(events) == intact
                } else {
                    &&& states.last().status() is Open
                    &&& plaintext_returned(events).is_prefix_of(intact)
                }
            }),
    {
        if events.len() > 0 && events.last().fails() {
            let earlier = events.drop_last();
            assert forall|i: int| 0 <= i < earlier.len() implies !(#[trigger] earlier[i]).fails()
                && !(earlier[i] is Drain) by {
                assert(!events[i].fails() && !(events[i] is Drain));
            }
            Self::lemma_damaged_run_fails(states, stream, events, body, plaintext, index);
        } else {
            assert forall|i: int| 0 <= i < events.len() implies !(#[trigger] events[i]).fails()
                && !(events[i] is Drain) by {}
            Self::lemma_damaged_run_on_course(states, stream, events, body, plaintext, index);
            states.last().lemma_returned_before_damage(stream, body, plaintext, index);
        }
    }

    proof fn lemma_damaged_run_fails(
        states: Seq<Self>,
        stream: Seq<u8>,
        events: Seq<DecryptReaderEvent>,
        body: Seq<u8>,
        plaintext: Seq<u8>,
        index: int,
    )
        requires
            Self::run(states, stream, events),
            states[0].damaged_at(stream, body, plaintext, index),
            events.len() > 0,
            events.last().fails(),
            forall|k: int|
                0 <= k < events.drop_last().len() ==> !(#[trigger] events.drop_last()[k]).fails()
                    && !(events.drop_last()[k] is Drain),
        ensures
            states.last().status() is Failed,
            plaintext_returned(events) == plaintext.take(
                index * states[0].session().parameters.payload_length(),
            ),
    {
        let before = states[states.len() - 2];
        let earlier = events.drop_last();
        Self::lemma_earlier_run(states, stream, events);
        Self::lemma_damaged_run_on_course(
            states.drop_last(),
            stream,
            earlier,
            body,
            plaintext,
            index,
        );
        Self::lemma_damaged_step(
            before,
            states.last(),
            stream,
            events.last(),
            body,
            plaintext,
            index,
        );
        assert(before.opened().take(before.position()) =~= before.opened());
        assert(plaintext_returned(events) =~= plaintext_returned(earlier));
    }

    proof fn lemma_returned_before_damage(
        &self,
        stream: Seq<u8>,
        body: Seq<u8>,
        plaintext: Seq<u8>,
        index: int,
    )
        requires
            self.wf(),
            self.damaged_at(stream, body, plaintext, index),
            self.on_damaged_course(stream, index),
        ensures
            self.opened().take(self.position()).is_prefix_of(
                plaintext.take(index * self.session().parameters.payload_length()),
            ),
    {
        let length = index * self.session().parameters.payload_length();
        let returned = self.opened().take(self.position());
        self.lemma_damaged_position(stream, body, plaintext, index);
        lemma_segment_of_body(self.session(), 0, body, plaintext, index);
        assert(returned =~= plaintext.take(length).take(self.position()));
    }

    proof fn lemma_damaged_run_on_course(
        states: Seq<Self>,
        stream: Seq<u8>,
        events: Seq<DecryptReaderEvent>,
        body: Seq<u8>,
        plaintext: Seq<u8>,
        index: int,
    )
        requires
            Self::run(states, stream, events),
            states[0].damaged_at(stream, body, plaintext, index),
            forall|k: int|
                0 <= k < events.len() ==> !(#[trigger] events[k]).fails() && !(events[k] is Drain),
        ensures
            states.last().wf(),
            states.last().session() == states[0].session(),
            states.last().on_damaged_course(stream, index),
            plaintext_returned(events) == states.last().opened().take(states.last().position()),
        decreases events.len(),
    {
        let first = states[0];
        if events.len() == 0 {
            assert(first.decrypted() =~= Seq::empty());
            assert(first.opened().take(first.position()) =~= Seq::empty());
            assert(0 <= index * first.session().parameters.segment_length()) by (nonlinear_arith)
                requires
                    0 <= index,
                    0 <= first.session().parameters.segment_length(),
            ;
        } else {
            let k = events.len() - 1;
            let earlier = events.drop_last();
            Self::lemma_earlier_run(states, stream, events);
            assert forall|i: int| 0 <= i < earlier.len() implies !(#[trigger] earlier[i]).fails()
                && !(earlier[i] is Drain) by {
                assert(!events[i].fails() && !(events[i] is Drain));
            }
            Self::lemma_damaged_run_on_course(
                states.drop_last(),
                stream,
                earlier,
                body,
                plaintext,
                index,
            );
            assert(!events[k].fails() && !(events[k] is Drain));
            Self::lemma_damaged_step(
                states[k],
                states[k + 1],
                stream,
                events[k],
                body,
                plaintext,
                index,
            );
            Self::lemma_step_returns(states[k], states[k + 1], stream, events[k]);
        }
    }

    /// A read makes progress: into a buffer that is not empty, a reader that is
    /// not poisoned serves at least one byte, the next ones that it has
    /// authenticated, asks for input, or has handed out the whole message. Where
    /// it fails, it is poisoned.
    pub proof fn lemma_read_progress(
        before: Self,
        after: Self,
        space: Seq<u8>,
        output: Seq<u8>,
        result: Result<ReadStep, StreamError>,
    )
        requires
            before.wf(),
            after.wf(),
            !(before.status() is Failed),
            0 < space.len() <= usize::MAX,
            output.len() == space.len(),
            Self::same_stream(before, after),
            Self::read_outcome(before, after, space, output, result),
        ensures
            match result {
                Ok(ReadStep::Served(served)) => {
                    &&& served <= space.len()
                    &&& after.opened().take(after.position()) == before.opened().take(
                        before.position(),
                    ) + output.take(served as int)
                    &&& output.skip(served as int) == space.skip(served as int)
                    &&& served == 0 ==> after.status() is Finished && after.available().len() == 0
                    &&& before.available().len() > 0 ==> served > 0
                },
                Ok(ReadStep::Fetch) => {
                    &&& output == space
                    &&& after.status() is Open
                    &&& after.target().len() > 0
                    &&& !(before.fetch() is Ready)
                },
                Err(_) => after.status() is Failed,
            },
    {
        if !(after.status() is Failed) {
            Self::lemma_read_returns(before, after, space, output, result);
            if before.status() is Open {
                before.decryptor()->0.lemma_next_position();
                lemma_full_segments(
                    before.session().parameters,
                    before.decryptor()->0.counter(),
                    before.decrypted().len() as int,
                    before.opened().len() as int,
                    0,
                );
            }
            if let Ok(ReadStep::Served(served)) = result {
                assert(output.skip(served as int) =~= space.skip(served as int));
            }
        }
    }

    /// Authenticating the remainder makes progress: it asks for input, is done
    /// exactly where the final segment is authenticated, or fails and leaves the
    /// reader poisoned.
    pub proof fn lemma_drain_progress(
        before: Self,
        after: Self,
        drained: Result<DrainStep, StreamError>,
    )
        requires
            before.wf(),
            after.wf(),
            Self::same_stream(before, after),
            Self::drained(before, after, drained),
        ensures
            match drained {
                Ok(DrainStep::Done) => {
                    &&& after.status() is Finished
                    &&& after.available().len() == 0
                    &&& after.taken() == before.taken()
                    &&& body_decrypted(
                        after.session(),
                        SegmentCounter::start(),
                        after.taken(),
                    ) == Ok::<Seq<u8>, Error>(after.opened())
                },
                Ok(DrainStep::Fetch) => after.status() is Open && after.target().len() > 0,
                Err(_) => after.status() is Failed,
            },
    {
    }

    /// Nothing is taken for the end that is not: whatever the source delivers,
    /// a reader that has finished has taken, from where the source began, a body
    /// that decrypts to what it has authenticated, and what it has handed out is
    /// the beginning of that, all of it once nothing is left to serve.
    pub proof fn lemma_finished_run(
        states: Seq<Self>,
        stream: Seq<u8>,
        events: Seq<DecryptReaderEvent>,
    )
        requires
            Self::run(states, stream, events),
            forall|k: int| 0 <= k < events.len() ==> !((#[trigger] events[k]) is Drain),
            !(states.last().status() is Failed),
        ensures
            ({
                let last = states.last();
                &&& last.session() == states[0].session()
                &&& last.taken().is_prefix_of(stream)
                &&& plaintext_returned(events).is_prefix_of(last.opened())
                &&& last.available().len() == 0 ==> plaintext_returned(events) == last.opened()
                &&& last.status() is Finished ==> body_decrypted(
                    last.session(),
                    SegmentCounter::start(),
                    last.taken(),
                ) == Ok::<Seq<u8>, Error>(last.opened())
            }),
    {
        let last = states.last();
        Self::lemma_run_returns(states, stream, events);
        assert(plaintext_returned(events) =~= last.opened().take(
            plaintext_returned(events).len() as int,
        ));
        if last.available().len() == 0 {
            assert(plaintext_returned(events) =~= last.opened());
        }
    }

    proof fn lemma_run_returns(
        states: Seq<Self>,
        stream: Seq<u8>,
        events: Seq<DecryptReaderEvent>,
    )
        requires
            Self::run(states, stream, events),
            forall|k: int| 0 <= k < events.len() ==> !((#[trigger] events[k]) is Drain),
            !(states.last().status() is Failed),
        ensures
            states.last().wf(),
            states.last().session() == states[0].session(),
            states.last().taken().is_prefix_of(stream),
            plaintext_returned(events) == states.last().opened().take(states.last().position()),
        decreases events.len(),
    {
        let first = states[0];
        if events.len() == 0 {
            assert(first.opened().take(first.position()) =~= Seq::empty());
            assert(first.taken() =~= stream.take(0));
        } else {
            let k = events.len() - 1;
            let earlier = events.drop_last();
            Self::lemma_earlier_run(states, stream, events);
            assert forall|i: int| 0 <= i < earlier.len() implies !((
            #[trigger] earlier[i]) is Drain) by {
                assert(!(events[i] is Drain));
            }
            assert(!(events[k] is Drain));
            if states[k].status() is Failed {
                Self::lemma_poisoned_step(states[k], states[k + 1], stream, events[k]);
            }
            Self::lemma_run_returns(states.drop_last(), stream, earlier);
            Self::lemma_step_takes(states[k], states[k + 1], stream, events[k]);
            Self::lemma_step_returns(states[k], states[k + 1], stream, events[k]);
        }
    }

    /// A whole message is read back: a reader that was made with the key and
    /// associated data of a message, from its header, and whose source delivers
    /// the rest, never fails, and what it hands out until it says that it has
    /// ended is what decrypting the message gives.
    pub proof fn lemma_message_run(
        states: Seq<Self>,
        message: Seq<u8>,
        events: Seq<DecryptReaderEvent>,
        key: Seq<u8>,
        aad: Seq<u8>,
        plaintext: Seq<u8>,
    )
        requires
            74 <= message.len(),
            Self::run(states, message.skip(74), events),
            states[0].spec_header()@ == message.take(74),
            states[0].made_for(key, aad),
            message_decrypted(key, aad, message) == Ok::<Seq<u8>, Error>(plaintext),
            forall|k: int| 0 <= k < events.len() ==> !((#[trigger] events[k]) is Drain),
        ensures
            forall|k: int| 0 <= k < events.len() ==> !(#[trigger] events[k]).fails(),
            events.len() > 0 && (events.last() matches DecryptReaderEvent::Read {
                space,
                result,
                ..
            } && space.len() > 0 && result == Ok::<ReadStep, StreamError>(ReadStep::Served(0)))
                ==> plaintext_returned(events) == plaintext && states.last().taken()
                == message.skip(74),
    {
        let body = message.skip(74);
        assert(body =~= body.take(body.len() as int));
        assert(message.take(74).take(10) =~= message.take(10));
        Self::lemma_valid_run(states, body, events, body, plaintext);
        if events.len() > 0 && (events.last() matches DecryptReaderEvent::Read {
            space,
            result,
            ..
        } && space.len() > 0 && result == Ok::<ReadStep, StreamError>(ReadStep::Served(0))) {
            Self::lemma_complete_run(states, body, events, body, plaintext);
        }
    }

    /// What input is refused: where the source ends in the four bytes of a
    /// prefix, the message is truncated; where it ends later in a segment, the
    /// segment is shorter than its prefix declares; and a complete prefix must
    /// declare a full segment that another follows, or a final one of at least
    /// 32 bytes that is at most full. Refused input poisons the reader.
    pub proof fn lemma_refused_input(
        before: Self,
        after: Self,
        read: int,
        recorded: Result<(), StreamError>,
    )
        requires
            before.wf(),
            before.status() is Open,
            0 <= read <= before.target().len(),
            before.target().len() > 0,
            Self::input_recorded(before, after, read, recorded),
        ensures
            recorded is Err ==> after.status() is Failed,
            recorded is Ok ==> after.status() is Open && after.taken() == before.taken()
                + before.target().take(read),
            before.fetch() is Prefix && read == 0 ==> recorded == Err::<(), StreamError>(
                StreamError::Decryption(Error::Truncated),
            ),
            before.fetch() is Body && read == 0 ==> recorded == Err::<(), StreamError>(
                StreamError::Decryption(
                    Error::InvalidCiphertextLength {
                        actual: before.held().len() as usize,
                        required: LengthRequirement::Exactly(
                            (before.held().len() + before.target().len()) as usize,
                        ),
                    },
                ),
            ),
            before.fetch() is Body && read > 0 ==> recorded is Ok,
            before.fetch() is Prefix && 0 < read < before.target().len() ==> recorded is Ok,
            before.fetch() is Prefix && 0 < read == before.target().len() ==> {
                let declared = number32(before.prefix(), 0);
                let full = before.session().parameters.segment_length();
                if declared == 0xffff_ffff {
                    recorded is Ok && after.target().len() == full - 4
                } else if 32 <= declared <= full {
                    recorded is Ok && after.target().len() == declared - 4
                } else {
                    recorded == Err::<(), StreamError>(
                        StreamError::Decryption(
                            Error::InvalidCiphertextLength {
                                actual: declared as usize,
                                required: LengthRequirement::Between {
                                    minimum: 32,
                                    maximum: full as usize,
                                },
                            },
                        ),
                    )
                }
            },
    {
        lemma_numbers_are_big_endian(0, 0, before.prefix());
    }
}

} // verus!
