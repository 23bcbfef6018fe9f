//! Runs of the encrypting reader: what any sequence of operations on it comes
//! to, whatever buffers it is read with and however its source delivers.

use crate::error::Error;
use crate::io::{EncryptReader, PlaintextFetch, ReadStep, StreamError};
use crate::message::{message_decrypted, opens_with};
use crate::model::{header_iv, Session};
use crate::parameters::{Parameters, SegmentKind, HEADER_LENGTH};
use vstd::prelude::*;

verus! {

/// What is done with an [`EncryptReader`].
pub enum EncryptReaderEvent {
    /// It is read into `space`, which leaves `output`.
    Read { space: Seq<u8>, output: Seq<u8>, result: Result<ReadStep, StreamError> },
    /// `bytes` are put where input is read to.
    Fill { bytes: Seq<u8> },
    /// It is told that `read` bytes of input were read.
    Record { read: usize },
}

impl EncryptReaderEvent {
    /// The bytes that this hands to the caller.
    pub open spec fn returned(self) -> Seq<u8> {
        match self {
            EncryptReaderEvent::Read {
                output,
                result: Ok(ReadStep::Served(count)),
                ..
            } => output.take(count as int),
            _ => Seq::empty(),
        }
    }
}

/// The bytes that events hand to the caller, in order.
pub open spec fn ciphertext_returned(events: Seq<EncryptReaderEvent>) -> Seq<u8>
    decreases events.len(),
{
    if events.len() == 0 {
        Seq::empty()
    } else {
        ciphertext_returned(events.drop_last()) + events.last().returned()
    }
}

impl<R> EncryptReader<R> {
    /// The next `read` bytes that were put where input is read to are those of
    /// `plaintext`, and there are none only at its end.
    pub open spec fn fed_by(&self, plaintext: Seq<u8>, read: int) -> bool {
        let start = self.source().len() as int;
        &&& start + read <= plaintext.len()
        &&& self.target().take(read) == plaintext.subrange(start, start + read)
        &&& read == 0 && self.target().len() > 0 ==> start == plaintext.len()
    }

    /// One operation on a reader whose source delivers `plaintext`.
    pub open spec fn step(
        before: Self,
        after: Self,
        plaintext: Seq<u8>,
        event: EncryptReaderEvent,
    ) -> bool {
        match event {
            EncryptReaderEvent::Read { space, output, result } => {
                &&& after.wf()
                &&& Self::same_stream(before, after)
                &&& output.len() == space.len() <= usize::MAX
                &&& Self::read_outcome(before, after, space, output, result)
            },
            EncryptReaderEvent::Fill { bytes } => {
                &&& before.status() is Open
                &&& bytes.len() == before.target().len()
                &&& Self::same_progress(before, after)
                &&& Self::input_filled(before, after, bytes)
            },
            EncryptReaderEvent::Record { read } => {
                &&& before.status() is Open
                &&& read <= before.target().len()
                &&& before.fed_by(plaintext, read as int)
                &&& after.wf()
                &&& Self::same_stream(before, after)
                &&& Self::input_recorded(before, after, read as int)
            },
        }
    }

    /// `states` are those of a reader through `events`, from its creation on.
    pub open spec fn run(
        states: Seq<Self>,
        plaintext: Seq<u8>,
        events: Seq<EncryptReaderEvent>,
    ) -> bool {
        &&& states.len() == events.len() + 1
        &&& states[0].fresh()
        &&& forall|k: int|
            0 <= k < events.len() ==> Self::step(
                #[trigger] states[k],
                states[k + 1],
                plaintext,
                events[k],
            )
    }

    /// While it is not poisoned, a reader has handed out what it has served,
    /// and it takes its plaintext for complete only where the source has ended.
    spec fn on_course(&self, plaintext: Seq<u8>, returned: Seq<u8>) -> bool {
        !(self.status() is Failed) ==> {
            &&& self.served() == returned
            &&& self.source().is_prefix_of(plaintext)
            &&& self.status() is Finished || self.fetch() == (PlaintextFetch::Ready {
                is_final: true,
            }) ==> self.source() == plaintext
        }
    }

    /// A read hands out what it serves.
    proof fn lemma_read_on_course(
        before: Self,
        after: Self,
        space: Seq<u8>,
        output: Seq<u8>,
        result: Result<ReadStep, StreamError>,
    )
        requires
            before.wf(),
            after.wf(),
            !(before.status() is Failed),
            !(after.status() is Failed),
            output.len() == space.len() <= usize::MAX,
            Self::read_outcome(before, after, space, output, result),
        ensures
            after.source() == before.source(),
            after.status() is Finished || after.fetch() == (PlaintextFetch::Ready {
                is_final: true,
            }) ==> before.status() is Finished || before.fetch() == (PlaintextFetch::Ready {
                is_final: true,
            }),
            after.served() == before.served() + (EncryptReaderEvent::Read {
                space,
                output,
                result,
            }).returned(),
    {
        let returned = (EncryptReaderEvent::Read { space, output, result }).returned();
        if space.len() == 0 || before.available().len() > 0 || before.status() is Finished {
            assert(after.served() =~= before.served() + returned);
        } else {
            match before.fetch() {
                PlaintextFetch::Ready { is_final } => {
                    let segment = after.emitted().skip(before.emitted().len() as int);
                    assert(before.served() =~= before.emitted());
                    assert(after.served() =~= before.served() + returned);
                },
                _ => {
                    assert(after.served() =~= before.served() + returned);
                },
            }
        }
    }

    proof fn lemma_step_on_course(
        before: Self,
        after: Self,
        plaintext: Seq<u8>,
        event: EncryptReaderEvent,
        returned: Seq<u8>,
    )
        requires
            before.wf(),
            before.on_course(plaintext, returned),
            Self::step(before, after, plaintext, event),
        ensures
            after.wf(),
            after.session() == before.session(),
            after.spec_header() == before.spec_header(),
            after.on_course(plaintext, returned + event.returned()),
    {
        match event {
            EncryptReaderEvent::Read { space, output, result } => {
                if !(before.status() is Failed) && !(after.status() is Failed) {
                    Self::lemma_read_on_course(before, after, space, output, result);
                }
                assert(returned + Seq::<u8>::empty() =~= returned);
            },
            EncryptReaderEvent::Fill { bytes } => {
                assert(after.served() =~= returned + event.returned());
            },
            EncryptReaderEvent::Record { read } => {
                assert(after.served() =~= returned + event.returned());
                assert(after.source() =~= plaintext.take(after.source().len() as int));
                if after.source().len() == plaintext.len() {
                    assert(after.source() =~= plaintext);
                }
            },
        }
    }

    proof fn lemma_run_on_course(
        states: Seq<Self>,
        plaintext: Seq<u8>,
        events: Seq<EncryptReaderEvent>,
    )
        requires
            Self::run(states, plaintext, events),
        ensures
            states.last().wf(),
            states.last().session() == states[0].session(),
            states.last().spec_header() == states[0].spec_header(),
            states.last().on_course(plaintext, ciphertext_returned(events)),
        decreases events.len(),
    {
        if events.len() == 0 {
            assert(states[0].served() =~= Seq::empty());
        } else {
            let earlier = states.drop_last();
            assert forall|k: int| 0 <= k < events.drop_last().len() implies Self::step(
                #[trigger] earlier[k],
                earlier[k + 1],
                plaintext,
                events.drop_last()[k],
            ) by {
                assert(Self::step(states[k], states[k + 1], plaintext, events[k]));
            }
            Self::lemma_run_on_course(earlier, plaintext, events.drop_last());
            let k = events.len() - 1;
            assert(Self::step(states[k], states[k + 1], plaintext, events[k]));
            Self::lemma_step_on_course(
                states[k],
                states[k + 1],
                plaintext,
                events[k],
                ciphertext_returned(events.drop_last()),
            );
        }
    }

    /// What a reader hands out until it says that it has ended is the message
    /// of its plaintext: whatever buffers it is read with, all that it has
    /// returned starts with its header, decrypts to all that the source has
    /// delivered, and has the length that a layout of that plaintext has, with
    /// no empty final segment after others. The reader has then finished, and
    /// stays as it is.
    pub proof fn lemma_complete_run(
        states: Seq<Self>,
        plaintext: Seq<u8>,
        events: Seq<EncryptReaderEvent>,
        key: Seq<u8>,
        aad: Seq<u8>,
        parameters: Parameters,
    )
        requires
            Self::run(states, plaintext, events),
            events.len() > 0,
            events.last() matches EncryptReaderEvent::Read { space, result, .. } && space.len() > 0
                && result == Ok::<ReadStep, StreamError>(ReadStep::Served(0)),
            states[0].made_for(key, parameters, aad),
        ensures
            states.last().status() is Finished,
            states.last().available().len() == 0,
            states.last() == states[states.len() - 2],
            ciphertext_returned(events).take(HEADER_LENGTH as int) == states[0].spec_header()@,
            ciphertext_returned(events).len() == parameters.message_length(
                plaintext.len() as int,
            ),
            message_decrypted(key, aad, ciphertext_returned(events)) == Ok::<Seq<u8>, Error>(
                plaintext,
            ),
    {
        let last = states.last();
        let before = states[states.len() - 2];
        let k = events.len() - 1;
        assert(Self::step(states[k], states[k + 1], plaintext, events[k]));
        Self::lemma_run_on_course(states, plaintext, events);
        let earlier = states.drop_last();
        assert forall|k: int| 0 <= k < events.drop_last().len() implies Self::step(
            #[trigger] earlier[k],
            earlier[k + 1],
            plaintext,
            events.drop_last()[k],
        ) by {
            assert(Self::step(states[k], states[k + 1], plaintext, events[k]));
        }
        Self::lemma_run_on_course(earlier, plaintext, events.drop_last());
        reveal(Session::encrypts);
        assert(before.status() is Finished);
        last.lemma_finished_message_decrypts(
            key,
            aad,
            parameters,
            header_iv(states[0].spec_header()@),
        );
        assert(last.served() =~= last.emitted());
    }

    /// A read makes progress: into a buffer that is not empty, a reader that is
    /// not poisoned serves at least one byte, the next ones of its message, asks
    /// for input, or has handed out its whole message. It fails only for want of
    /// random bytes or of a position for one more segment.
    pub proof fn lemma_read_progress(
        before: Self,
        after: Self,
        space: Seq<u8>,
        output: Seq<u8>,
        result: Result<ReadStep, StreamError>,
    )
        requires
            before.wf(),
            after.wf(),
            !(before.status() is Failed),
            0 < space.len() <= usize::MAX,
            output.len() == space.len(),
            Self::same_stream(before, after),
            Self::read_outcome(before, after, space, output, result),
        ensures
            match result {
                Ok(ReadStep::Served(served)) => {
                    &&& served <= space.len()
                    &&& after.served() == before.served() + output.take(served as int)
                    &&& output.skip(served as int) == space.skip(served as int)
                    &&& served == 0 <==> before.status() is Finished && before.available().len()
                        == 0
                    &&& served == 0 ==> after == before
                },
                Ok(ReadStep::Fetch) => {
                    &&& output == space
                    &&& after.status() is Open
                    &&& after.served() == before.served()
                    &&& after.target().len() > 0
                    &&& !(before.fetch() is Ready)
                },
                Err(error) => {
                    &&& after.status() is Failed
                    &&& error == StreamError::Encryption(Error::RngFailure) || (error
                        == StreamError::Encryption(Error::SegmentLimit)
                        && before.encryptor()->0.counter().next == 0xff_ffff_ffff)
                },
            },
    {
        if before.status() is Open {
            before.encryptor()->0.lemma_next_position();
            before.encryptor()->0.counter().lemma_positions_count_up(SegmentKind::NonFinal);
            before.encryptor()->0.counter().lemma_positions_count_up(SegmentKind::Final);
        }
        reveal(opens_with);
        reveal(Session::encrypts);
        if !(after.status() is Failed) {
            Self::lemma_read_on_course(before, after, space, output, result);
            match result {
                Ok(ReadStep::Served(served)) => {
                    assert(output.skip(served as int) =~= space.skip(served as int));
                },
                _ => {
                    assert(before.served() + Seq::<u8>::empty() =~= before.served());
                },
            }
        }
    }

    /// Input makes progress: each byte that is read brings the end of the input
    /// that was asked for nearer, after a full piece one byte more is asked for,
    /// and where there is none, or the input ends before, the final segment can
    /// be produced.
    pub proof fn lemma_input_progress(before: Self, after: Self, read: int)
        requires
            before.wf(),
            after.wf(),
            before.status() is Open,
            0 <= read <= before.target().len(),
            before.target().len() > 0,
            Self::same_stream(before, after),
            Self::input_recorded(before, after, read),
        ensures
            read == 0 ==> after.fetch() == (PlaintextFetch::Ready { is_final: true }),
            after.fetch() == (PlaintextFetch::Ready { is_final: true }) ==> read == 0,
            read > 0 ==> after.fetch() is Ready || after.target().len() == before.target().len()
                - read || (read == before.target().len() && after.fetch() is Lookahead
                && after.target().len() == 1),
            after.source() == before.source() + before.target().take(read),
    {
    }

    /// A poisoned reader stays poisoned: it takes no input, and a read fails
    /// unless it asks for nothing.
    pub proof fn lemma_poisoned_step(
        before: Self,
        after: Self,
        plaintext: Seq<u8>,
        event: EncryptReaderEvent,
    )
        requires
            before.status() is Failed,
            Self::step(before, after, plaintext, event),
        ensures
            after == before,
            match event {
                EncryptReaderEvent::Read { space, output, result } => output == space && result
                    == if space.len() == 0 {
                    Ok::<ReadStep, StreamError>(ReadStep::Served(0))
                } else {
                    Err::<ReadStep, StreamError>(StreamError::Poisoned)
                },
                _ => false,
            },
    {
    }
}

} // verus!
