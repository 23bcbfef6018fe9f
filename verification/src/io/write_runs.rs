//! Runs of the encrypting writer: what any sequence of operations on it comes
//! to, however the plaintext is cut into writes.

use crate::error::Error;
use crate::io::{EncryptWriter, FinishStep, Pending, StreamError, WriteStep};
use crate::message::{message_decrypted, opens_with};
use crate::model::{header_iv, Session};
use crate::parameters::{Parameters, SegmentKind};
use vstd::prelude::*;

verus! {

/// What is done with an [`EncryptWriter`].
pub enum EncryptWriterEvent {
    /// `input` is written to it.
    Write { input: Seq<u8>, result: Result<WriteStep, StreamError> },
    /// It is told to finish.
    Finish { outcome: Result<FinishStep, StreamError> },
    /// The waiting output is written out, and the writer says that this has
    /// taken `accepted` bytes of the input of the current write.
    Written { accepted: usize },
    /// Writing out the waiting output fails.
    Lost,
}

impl<W> EncryptWriter<W> {
    /// One operation on a writer.
    pub open spec fn step(before: Self, after: Self, event: EncryptWriterEvent) -> bool {
        match event {
            EncryptWriterEvent::Write { input, result } => {
                &&& after.wf()
                &&& Self::same_stream(before, after)
                &&& input.len() <= usize::MAX
                &&& Self::written(before, after, input, result)
            },
            EncryptWriterEvent::Finish { outcome } => {
                &&& after.wf()
                &&& Self::same_stream(before, after)
                &&& Self::finishing(before, after, outcome)
            },
            EncryptWriterEvent::Written { accepted } => {
                &&& after.wf()
                &&& Self::output_taken(before, after, accepted)
            },
            EncryptWriterEvent::Lost => {
                &&& after.wf()
                &&& Self::same_stream(before, after)
                &&& after.status() is Failed
            },
        }
    }

    /// `states` are those of a writer through `events`, from its creation on.
    pub open spec fn run(states: Seq<Self>, events: Seq<EncryptWriterEvent>) -> bool {
        &&& states.len() == events.len() + 1
        &&& states[0].fresh()
        &&& forall|k: int|
            0 <= k < events.len() ==> Self::step(#[trigger] states[k], states[k + 1], events[k])
    }

    /// The input that the waiting output belongs to after `count` events: that
    /// of the last write that was made while no output was waiting.
    pub open spec fn current_input(
        states: Seq<Self>,
        events: Seq<EncryptWriterEvent>,
        count: nat,
    ) -> Seq<u8>
        decreases count,
    {
        if count == 0 {
            Seq::empty()
        } else {
            match events[count - 1] {
                EncryptWriterEvent::Write { input, .. } if states[count - 1].pending() is Nothing => {
                    input
                },
                _ => Self::current_input(states, events, (count - 1) as nat),
            }
        }
    }

    /// The parts of the inputs that the first `count` events have reported as
    /// taken, in order.
    pub open spec fn reported(
        states: Seq<Self>,
        events: Seq<EncryptWriterEvent>,
        count: nat,
    ) -> Seq<u8>
        decreases count,
    {
        if count == 0 {
            Seq::empty()
        } else {
            let earlier = (count - 1) as nat;
            Self::reported(states, events, earlier) + match events[count - 1] {
                EncryptWriterEvent::Write {
                    input,
                    result: Ok(WriteStep::Accepted(taken)),
                } => input.take(taken as int),
                EncryptWriterEvent::Written { accepted } => Self::current_input(
                    states,
                    events,
                    earlier,
                ).take(accepted as int),
                _ => Seq::empty(),
            }
        }
    }

    /// The bytes that are written out in the first `count` events, in order.
    pub open spec fn written_out(
        states: Seq<Self>,
        events: Seq<EncryptWriterEvent>,
        count: nat,
    ) -> Seq<u8>
        decreases count,
    {
        if count == 0 {
            Seq::empty()
        } else {
            let earlier = (count - 1) as nat;
            Self::written_out(states, events, earlier) + if events[count - 1] is Written {
                states[count - 1].pending_bytes()
            } else {
                Seq::empty()
            }
        }
    }

    /// What the waiting output will have taken of `input`.
    spec fn due(&self, input: Seq<u8>) -> Seq<u8> {
        match self.pending() {
            Pending::Segment { accepted } => input.take(accepted as int),
            _ => Seq::empty(),
        }
    }

    /// While it is not poisoned, a writer has taken what it has reported and
    /// what its waiting output will report, and it has produced what was written
    /// out and what is waiting.
    spec fn on_course(&self, input: Seq<u8>, reported: Seq<u8>, written_out: Seq<u8>) -> bool {
        !(self.status() is Failed) ==> {
            &&& self.accepted() == reported + self.due(input)
            &&& self.emitted() == written_out + self.pending_bytes()
        }
    }

    proof fn lemma_write_on_course(
        before: Self,
        after: Self,
        input: Seq<u8>,
        result: Result<WriteStep, StreamError>,
        current: Seq<u8>,
        reported: Seq<u8>,
        written_out: Seq<u8>,
    )
        requires
            before.wf(),
            after.wf(),
            before.on_course(current, reported, written_out),
            Self::same_stream(before, after),
            input.len() <= usize::MAX,
            Self::written(before, after, input, result),
        ensures
            after.on_course(
                if before.pending() is Nothing {
                    input
                } else {
                    current
                },
                reported + match result {
                    Ok(WriteStep::Accepted(taken)) => input.take(taken as int),
                    _ => Seq::empty(),
                },
                written_out,
            ),
    {
        let none = Seq::<u8>::empty();
        assert(reported + none =~= reported);
        assert(input.take(0) =~= none);
        if !(before.status() is Failed) && !(after.status() is Failed) {
            if before.pending() is Nothing {
                assert(before.accepted() =~= reported);
                assert(before.emitted() =~= written_out);
            }
            match result {
                Ok(WriteStep::Accepted(taken)) => {
                    let part = input.take(taken as int);
                    assert(reported + part + none =~= reported + part);
                    assert(written_out + none =~= written_out);
                },
                _ => {
                    assert(reported + none + none =~= reported + none);
                },
            }
        }
    }

    proof fn lemma_step_on_course(
        states: Seq<Self>,
        events: Seq<EncryptWriterEvent>,
        count: nat,
    )
        requires
            0 < count <= events.len(),
            states.len() == events.len() + 1,
            Self::step(states[count - 1], states[count as int], events[count - 1]),
            states[count - 1].wf(),
            states[count - 1].on_course(
                Self::current_input(states, events, (count - 1) as nat),
                Self::reported(states, events, (count - 1) as nat),
                Self::written_out(states, events, (count - 1) as nat),
            ),
        ensures
            states[count as int].wf(),
            Self::same_stream(states[count - 1], states[count as int]),
            states[count as int].on_course(
                Self::current_input(states, events, count),
                Self::reported(states, events, count),
                Self::written_out(states, events, count),
            ),
    {
        let before = states[count - 1];
        let after = states[count as int];
        let earlier = (count - 1) as nat;
        let none = Seq::<u8>::empty();
        let current = Self::current_input(states, events, earlier);
        let reported = Self::reported(states, events, earlier);
        let written_out = Self::written_out(states, events, earlier);
        assert(reported + none =~= reported);
        assert(written_out + none =~= written_out);
        match events[count - 1] {
            EncryptWriterEvent::Write { input, result } => {
                Self::lemma_write_on_course(
                    before,
                    after,
                    input,
                    result,
                    current,
                    reported,
                    written_out,
                );
            },
            EncryptWriterEvent::Finish { outcome } => {
                if !(before.status() is Failed) && !(after.status() is Failed) {
                    if before.pending() is Nothing {
                        assert(before.emitted() =~= written_out);
                    }
                }
            },
            EncryptWriterEvent::Written { accepted } => {
                assert(current.take(0) =~= none);
                assert(after.pending_bytes() =~= none);
                if !(before.status() is Failed) {
                    assert(reported + before.due(current) + none =~= reported + before.due(
                        current,
                    ));
                    assert(written_out + before.pending_bytes() + none =~= written_out
                        + before.pending_bytes());
                }
            },
            EncryptWriterEvent::Lost => {},
        }
    }

    proof fn lemma_run_on_course(
        states: Seq<Self>,
        events: Seq<EncryptWriterEvent>,
        count: nat,
    )
        requires
            Self::run(states, events),
            count <= events.len(),
        ensures
            states[count as int].wf(),
            Self::same_stream(states[0], states[count as int]),
            states[count as int].on_course(
                Self::current_input(states, events, count),
                Self::reported(states, events, count),
                Self::written_out(states, events, count),
            ),
        decreases count,
    {
        let none = Seq::<u8>::empty();
        if count == 0 {
            assert(none + none =~= none);
            assert(none + states[0].pending_bytes() =~= states[0].pending_bytes());
        } else {
            Self::lemma_run_on_course(states, events, (count - 1) as nat);
            assert(Self::step(states[count - 1], states[count - 1 + 1], events[count - 1]));
            Self::lemma_step_on_course(states, events, count);
        }
    }

    /// What a writer reports as taken is what it encrypts, and what is written
    /// out is all that it produces: over any sequence of writes, however the
    /// plaintext is cut, while no output is waiting and the writer is not
    /// poisoned.
    pub proof fn lemma_account(states: Seq<Self>, events: Seq<EncryptWriterEvent>)
        requires
            Self::run(states, events),
            states.last().pending() is Nothing,
            !(states.last().status() is Failed),
        ensures
            states.last().accepted() == Self::reported(states, events, events.len()),
            states.last().emitted() == Self::written_out(states, events, events.len()),
    {
        Self::lemma_run_on_course(states, events, events.len());
        let last = states.last();
        assert(last.accepted() =~= Self::reported(states, events, events.len()));
        assert(last.emitted() =~= Self::written_out(states, events, events.len()));
    }

    /// The bytes that a writer has written out when it has finished are a
    /// message that decrypts, under the key and associated data that the writer
    /// was made with, to the parts of the inputs that it has reported as taken,
    /// one after another.
    pub proof fn lemma_complete_run(
        states: Seq<Self>,
        events: Seq<EncryptWriterEvent>,
        key: Seq<u8>,
        aad: Seq<u8>,
        parameters: Parameters,
    )
        requires
            Self::run(states, events),
            states[0].made_for(key, parameters, aad),
            states.last().status() is Finished,
        ensures
            message_decrypted(
                key,
                aad,
                Self::written_out(states, events, events.len()),
            ) == Ok::<Seq<u8>, Error>(Self::reported(states, events, events.len())),
    {
        Self::lemma_run_on_course(states, events, events.len());
        Self::lemma_account(states, events);
        states.last().lemma_finished_message_decrypts(
            key,
            aad,
            parameters,
            header_iv(states[0].spec_header()@),
        );
    }

    /// A write makes progress: where no output is waiting, it takes at least one
    /// byte of an input that is not empty, or it has a full segment written out
    /// that leaves the buffer empty, and it fails only for want of random bytes
    /// or of a position for one more segment.
    pub proof fn lemma_write_progress(
        before: Self,
        after: Self,
        input: Seq<u8>,
        result: Result<WriteStep, StreamError>,
    )
        requires
            before.wf(),
            after.wf(),
            before.status() is Open,
            before.pending() is Nothing,
            0 < input.len() <= usize::MAX,
            Self::same_stream(before, after),
            Self::written(before, after, input, result),
        ensures
            match result {
                Ok(WriteStep::Accepted(taken)) => {
                    &&& 1 <= taken <= input.len()
                    &&& after.status() is Open
                    &&& after.pending() is Nothing
                    &&& after.buffered() == before.buffered() + input.take(taken as int)
                    &&& taken == input.len() || after.buffered().len()
                        == before.session().parameters.segment_length() - 32
                },
                Ok(WriteStep::Emit) => {
                    &&& after.status() is Open
                    &&& after.pending() is Segment
                    &&& after.pending_bytes().len() == before.session().parameters.segment_length()
                    &&& after.buffered().len() == 0
                    &&& after.pending()->accepted == 0 ==> before.buffered().len()
                        == before.session().parameters.segment_length() - 32
                    &&& after.pending()->accepted > 0 ==> before.buffered().len() == 0
                        && after.pending()->accepted
                        == before.session().parameters.segment_length() - 32
                },
                Err(error) => {
                    &&& after.status() is Failed
                    &&& error == StreamError::Encryption(Error::RngFailure) || (error
                        == StreamError::Encryption(Error::SegmentLimit)
                        && before.encryptor()->0.counter().next == 0xff_ffff_ffff)
                },
            },
    {
        reveal(Session::encrypts);
        let encryptor = before.encryptor()->0;
        encryptor.lemma_next_position();
        encryptor.counter().lemma_positions_count_up(SegmentKind::NonFinal);
        reveal(opens_with);
    }

    /// Finishing makes progress: where no output is waiting, it has a final
    /// segment with all that was buffered written out, and once that is done the
    /// writer has finished, says so, and stays as it is. It is never done before
    /// that.
    pub proof fn lemma_finish_progress(
        before: Self,
        middle: Self,
        after: Self,
        again: Self,
        accepted: usize,
        outcome: Result<FinishStep, StreamError>,
        repeated: Result<FinishStep, StreamError>,
    )
        requires
            before.wf(),
            before.pending() is Nothing,
            Self::same_stream(before, middle),
            Self::finishing(before, middle, outcome),
            Self::output_taken(middle, after, accepted),
            Self::finishing(after, again, repeated),
        ensures
            outcome == Ok::<FinishStep, StreamError>(FinishStep::Done) <==> before.status()
                is Finished,
            outcome == Err::<FinishStep, StreamError>(StreamError::Poisoned) <==> before.status()
                is Failed,
            before.status() is Open ==> match outcome {
                Ok(_) => {
                    &&& middle.pending_bytes().len() == 32 + before.buffered().len()
                    &&& accepted == 0
                    &&& after.status() is Finished
                    &&& repeated == Ok::<FinishStep, StreamError>(FinishStep::Done)
                    &&& again == after
                },
                Err(error) => {
                    &&& middle.status() is Failed
                    &&& error == StreamError::Encryption(Error::RngFailure)
                },
            },
    {
        reveal(Session::encrypts);
    }

    /// A writer that has finished or is poisoned takes nothing: a write that is
    /// not empty fails and changes nothing.
    pub proof fn lemma_closed_write(
        before: Self,
        after: Self,
        input: Seq<u8>,
        result: Result<WriteStep, StreamError>,
    )
        requires
            !(before.status() is Open),
            Self::written(before, after, input, result),
        ensures
            after == before,
            result == if input.len() == 0 {
                Ok::<WriteStep, StreamError>(WriteStep::Accepted(0))
            } else if before.status() is Finished {
                Err::<WriteStep, StreamError>(StreamError::AlreadyFinished)
            } else {
                Err::<WriteStep, StreamError>(StreamError::Poisoned)
            },
    {
    }
}

} // verus!
