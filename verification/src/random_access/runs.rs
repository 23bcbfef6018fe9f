//! Runs of the random-access reader: what any sequence of operations on it
//! comes to, while the caller follows its requests on a source that holds the
//! message.

use crate::counter::SegmentCounter;
use crate::error::{Error, LengthRequirement};
use crate::io::{ReadStep, StreamError};
use crate::layout::SegmentLayout;
use crate::message::{body_decrypted, lemma_random_access_agrees};
use crate::random_access::{
    header_bound_validated, length_found, range_resolved, FetchState, RangeBound, RangeRead,
    RangeStep, Reader, Request, SeekTarget, SegmentStep,
};
use vstd::prelude::*;

verus! {

/// What is done with a [`Reader`].
pub enum ReaderEvent {
    /// It is told to authenticate the final segment.
    AuthenticateEnd { authenticated: Result<(), StreamError> },
    /// It is read into `space`, which leaves `output`.
    Read { space: Seq<u8>, output: Seq<u8>, result: Result<ReadStep, StreamError> },
    /// A segment is read.
    ReadSegment { position: u64, segment: Result<SegmentStep, StreamError> },
    /// A segment is read into `room`, which leaves `filled`.
    ReadSegmentInto {
        index: u64,
        room: Seq<u8>,
        filled: Seq<u8>,
        outcome: Result<ReadStep, StreamError>,
    },
    /// A step of reading a range is taken.
    ReadRange {
        from: RangeRead,
        to: RangeRead,
        old_bytes: Seq<u8>,
        new_bytes: Seq<u8>,
        step: Result<RangeStep, StreamError>,
    },
    /// It is moved.
    Seek { target: SeekTarget, sought: Result<u64, StreamError> },
    /// The wrapped reader is moved as requested.
    Move,
    /// `bytes` are put where ciphertext is read to.
    Fill { bytes: Seq<u8> },
    /// It is told that `read` bytes of ciphertext were read.
    Record { read: usize, recorded: Result<(), StreamError> },
}

impl ReaderEvent {
    /// The bytes that this hands to the caller who reads on.
    pub open spec fn returned(self) -> Seq<u8> {
        match self {
            ReaderEvent::Read { output, result: Ok(ReadStep::Served(count)), .. } => output.take(
                count as int,
            ),
            _ => Seq::empty(),
        }
    }
}

/// The bytes that events hand to the caller who reads on, in order.
pub open spec fn bytes_read(events: Seq<ReaderEvent>) -> Seq<u8>
    decreases events.len(),
{
    if events.len() == 0 {
        Seq::empty()
    } else {
        bytes_read(events.drop_last()) + events.last().returned()
    }
}

impl<R> Reader<R> {
    /// One operation on a reader that wraps `source`. The wrapped reader stands
    /// at `place` before it and at `next` after it.
    pub open spec fn step(
        before: Self,
        after: Self,
        source: Seq<u8>,
        place: int,
        next: int,
        event: ReaderEvent,
    ) -> bool {
        &&& after.wf()
        &&& Self::same_message(before, after)
        &&& match event {
            ReaderEvent::AuthenticateEnd { authenticated } => {
                &&& before.ready((before.layout().segment_count() - 1) as u64)
                &&& Self::end_authenticated(before, after, authenticated)
                &&& next == place
            },
            ReaderEvent::Read { space, output, result } => {
                &&& output.len() == space.len() <= usize::MAX
                &&& Self::read_outcome(before, after, space, output, result)
                &&& next == place
            },
            ReaderEvent::ReadSegment { position, segment } => {
                &&& Self::segment_returned(before, after, position, segment)
                &&& next == place
            },
            ReaderEvent::ReadSegmentInto { index, room, filled, outcome } => {
                &&& filled.len() == room.len() <= usize::MAX
                &&& Self::segment_read(before, after, index, room, filled, outcome)
                &&& next == place
            },
            ReaderEvent::ReadRange { from, to, old_bytes, new_bytes, step } => {
                &&& from.wf()
                &&& to.wf()
                &&& from.end() <= before.layout().plaintext_length()
                &&& new_bytes.len() == old_bytes.len() <= usize::MAX
                &&& Self::range_read(before, after, from, to, old_bytes, new_bytes, step)
                &&& next == place
            },
            ReaderEvent::Seek { target, sought } => {
                &&& Self::sought_to(before, after, target, sought)
                &&& next == place
            },
            ReaderEvent::Move => {
                &&& before.request() == Request::Seek(next as u64)
                &&& 0 <= next <= u64::MAX
                &&& Self::inner_moved(before, after)
            },
            ReaderEvent::Fill { bytes } => {
                &&& before.request() is Read
                &&& bytes.len() == before.target().len()
                &&& Self::input_filled(before, after, bytes)
                &&& next == place
            },
            ReaderEvent::Record { read, recorded } => {
                &&& before.request() is Read
                &&& read <= before.target().len()
                &&& 0 <= place && place + read <= source.len()
                &&& before.target().take(read as int) == source.subrange(place, place + read)
                &&& read == 0 ==> place == source.len()
                &&& Self::input_recorded(before, after, read as int, recorded)
                &&& next == place + read
            },
        }
    }

    /// `readers` are the states of a reader through `events`, from its creation
    /// for the message of `length` bytes at `start` of `source` on, and `places`
    /// are where the wrapped reader stands.
    pub open spec fn run(
        readers: Seq<Self>,
        places: Seq<int>,
        source: Seq<u8>,
        start: u64,
        length: u64,
        events: Seq<ReaderEvent>,
    ) -> bool {
        &&& readers.len() == events.len() + 1
        &&& places.len() == events.len() + 1
        &&& readers[0].fresh(readers[0].session(), start, length)
        &&& forall|k: int|
            0 <= k < events.len() ==> Self::step(
                #[trigger] readers[k],
                readers[k + 1],
                source,
                places[k],
                places[k + 1],
                events[k],
            )
    }

    /// `source` holds, where this reader's message starts, a message that
    /// decrypts to `plaintext`.
    pub open spec fn valid_source(&self, source: Seq<u8>, plaintext: Seq<u8>) -> bool {
        let start = self.message_start() as int;
        let end = start + self.layout().ciphertext_length();
        &&& source.len() <= u64::MAX
        &&& end <= source.len()
        &&& 74 <= self.layout().ciphertext_length()
        &&& body_decrypted(
            self.session(),
            SegmentCounter::start(),
            source.subrange(start + 74, end),
        ) == Ok::<Seq<u8>, Error>(plaintext)
        &&& self.layout().segment_count() == self.session().parameters.segments_for_body(
            self.layout().ciphertext_length() - 74,
        )
    }

    /// Where `segment` starts in the source.
    spec fn place_of(&self, segment: SegmentLayout) -> int {
        self.message_start() + segment.ciphertext_offset()
    }

    /// This reader knows where the wrapped reader stands, what it has read of a
    /// segment is what `source` holds there, and the plaintext that it keeps is
    /// that of its segment.
    spec fn on_course(&self, source: Seq<u8>, plaintext: Seq<u8>, place: int) -> bool {
        &&& self.wf()
        &&& self.valid_source(source, plaintext)
        &&& 0 <= place
        &&& self.inner_position() matches Some(known) ==> place == known
        &&& match self.fetch() {
            FetchState::Read { segment, progress, .. } => {
                &&& self.inner_position() is None
                &&& place == self.place_of(segment) + progress.filled()
                &&& self.held() == source.subrange(self.place_of(segment), place)
            },
            FetchState::Ready { segment } => self.held() == source.subrange(
                self.place_of(segment),
                self.place_of(segment) + segment.ciphertext_length(),
            ),
            _ => true,
        }
        &&& self.cached_position() matches Some(position) ==> self.scratch().plaintext_view()
            == Some(self.message_piece(plaintext, position as int))
    }

    /// The segments of a message that decrypts lie in the source where the
    /// layout puts them, and each decrypts to its piece of the plaintext.
    proof fn lemma_source_segment(&self, source: Seq<u8>, plaintext: Seq<u8>, position: int)
        requires
            self.wf(),
            self.valid_source(source, plaintext),
            0 <= position < self.layout().segment_count(),
        ensures
            ({
                let start = self.message_start() + self.layout().ciphertext_start(position);
                let end = start + self.layout().ciphertext_size(position);
                &&& self.layout().plaintext_length() == plaintext.len()
                &&& 0 <= start <= end <= source.len()
                &&& self.offset_error(position as u64) is None
                &&& self.message_piece(plaintext, position).len() == self.layout().plaintext_size(
                    position,
                )
                &&& self.session().decrypted(
                    position as u64,
                    self.layout().kind_at(position),
                    source.subrange(start, end),
                ) == Ok::<Seq<u8>, Error>(self.message_piece(plaintext, position))
            }),
    {
        let from = self.message_start() as int;
        let to = from + self.layout().ciphertext_length();
        let ciphertext = source.subrange(from, to);
        assert(ciphertext.skip(74) =~= source.subrange(from + 74, to));
        lemma_random_access_agrees(
            self.session(),
            ciphertext,
            plaintext,
            self.layout(),
            position,
        );
        self.layout().lemma_segments_tile(position);
        let start = self.layout().ciphertext_start(position);
        let end = start + self.layout().ciphertext_size(position);
        assert(0 <= start) by (nonlinear_arith)
            requires
                start == 74 + position * self.layout().parameters().segment_length(),
                0 <= position,
                0 <= self.layout().parameters().segment_length(),
        ;
        assert(ciphertext.subrange(start, end) =~= source.subrange(from + start, from + end));
    }

    /// A segment that is there gives its piece of the plaintext.
    proof fn lemma_ready_segment(
        &self,
        source: Seq<u8>,
        plaintext: Seq<u8>,
        place: int,
        position: u64,
    )
        requires
            self.on_course(source, plaintext, place),
            self.ready(position),
        ensures
            position < self.layout().segment_count(),
            self.plaintext_at(position) == Ok::<Seq<u8>, Error>(
                self.message_piece(plaintext, position as int),
            ),
            self.message_piece(plaintext, position as int).len() == self.layout().plaintext_size(
                position as int,
            ),
    {
        self.lemma_source_segment(source, plaintext, position as int);
    }

    /// Beginning to read a segment of the message keeps the reader on course and
    /// does not fail.
    proof fn lemma_fetch_on_course<Step>(
        before: Self,
        after: Self,
        source: Seq<u8>,
        plaintext: Seq<u8>,
        place: int,
        position: u64,
        fetch: Step,
        result: Result<Step, StreamError>,
    )
        requires
            before.on_course(source, plaintext, place),
            after.wf(),
            Self::same_message(before, after),
            position < before.layout().segment_count(),
            Self::fetching(before, after, position, fetch, result),
        ensures
            after.on_course(source, plaintext, place),
            result is Ok && result->Ok_0 == fetch,
            after.position() == before.position(),
            after.request() == Request::Read || after.request() == Request::Seek(
                (before.message_start() + 74 + position
                    * before.session().parameters.segment_length()) as u64,
            ),
    {
        before.lemma_source_segment(source, plaintext, position as int);
        if let FetchState::Read { segment, progress, .. } = after.fetch() {
            assert(after.held() =~= source.subrange(after.place_of(segment), place));
        }
    }

    /// Recording what was read keeps the reader on course.
    proof fn lemma_record_on_course(
        before: Self,
        after: Self,
        source: Seq<u8>,
        plaintext: Seq<u8>,
        place: int,
        read: int,
        recorded: Result<(), StreamError>,
    )
        requires
            before.on_course(source, plaintext, place),
            after.wf(),
            Self::same_message(before, after),
            before.request() is Read,
            0 <= read <= before.target().len(),
            place + read <= source.len(),
            before.target().take(read) == source.subrange(place, place + read),
            read == 0 ==> place == source.len(),
            Self::input_recorded(before, after, read, recorded),
        ensures
            after.on_course(source, plaintext, place + read),
            recorded is Ok,
            after.position() == before.position(),
    {
        let segment = before.fetch()->Read_segment;
        let filled = before.fetch()->Read_progress.filled() as int;
        let start = before.place_of(segment);
        before.lemma_source_segment(source, plaintext, segment.position() as int);
        assert(before.target().len() == segment.ciphertext_length() - filled);
        assert(source.subrange(start, place) + source.subrange(place, place + read)
            =~= source.subrange(start, place + read));
        assert(before.held().len() == filled);
        if read < before.target().len() {
            let now = after.fetch()->Read_progress.filled() as int;
            assert(after.held().len() == now);
            assert(now == filled + read);
        }
    }

    /// Every operation keeps the reader on course.
    proof fn lemma_step_on_course(
        before: Self,
        after: Self,
        source: Seq<u8>,
        plaintext: Seq<u8>,
        place: int,
        next: int,
        event: ReaderEvent,
    )
        requires
            before.on_course(source, plaintext, place),
            Self::step(before, after, source, place, next, event),
        ensures
            after.on_course(source, plaintext, next),
    {
        let count = before.layout().segment_count();
        match event {
            ReaderEvent::AuthenticateEnd { authenticated } => {},
            ReaderEvent::Read { space, output, result } => {
                Self::lemma_read_on_course(
                    before,
                    after,
                    source,
                    plaintext,
                    place,
                    space,
                    output,
                    result,
                );
            },
            ReaderEvent::ReadSegment { position, segment } => {
                if position < count && !before.ready(position) {
                    Self::lemma_fetch_on_course(
                        before,
                        after,
                        source,
                        plaintext,
                        place,
                        position,
                        SegmentStep::Fetch,
                        segment,
                    );
                }
            },
            ReaderEvent::ReadSegmentInto { index, room, filled, outcome } => {
                if before.segment_error(index, room.len() as int) is None && !before.ready(index) {
                    Self::lemma_fetch_on_course(
                        before,
                        after,
                        source,
                        plaintext,
                        place,
                        index,
                        ReadStep::Fetch,
                        outcome,
                    );
                }
            },
            ReaderEvent::ReadRange { from, to, old_bytes, new_bytes, step } => {
                Self::lemma_range_on_course(
                    before,
                    after,
                    source,
                    plaintext,
                    place,
                    from,
                    to,
                    old_bytes,
                    new_bytes,
                    step,
                );
            },
            ReaderEvent::Seek { target, sought } => {},
            ReaderEvent::Move => {
                if let FetchState::Read { segment, progress, .. } = after.fetch() {
                    before.lemma_source_segment(source, plaintext, segment.position() as int);
                    assert(after.held() =~= source.subrange(after.place_of(segment), next));
                }
            },
            ReaderEvent::Fill { bytes } => {},
            ReaderEvent::Record { read, recorded } => {
                Self::lemma_record_on_course(
                    before,
                    after,
                    source,
                    plaintext,
                    place,
                    read as int,
                    recorded,
                );
            },
        }
    }

    /// A read serves what the plaintext holds at the reader's position, and ends
    /// only at its end.
    proof fn lemma_read_on_course(
        before: Self,
        after: Self,
        source: Seq<u8>,
        plaintext: Seq<u8>,
        place: int,
        space: Seq<u8>,
        output: Seq<u8>,
        result: Result<ReadStep, StreamError>,
    )
        requires
            before.on_course(source, plaintext, place),
            after.wf(),
            Self::same_message(before, after),
            output.len() == space.len() <= usize::MAX,
            Self::read_outcome(before, after, space, output, result),
        ensures
            after.on_course(source, plaintext, place),
            match result {
                Ok(ReadStep::Served(served)) => {
                    &&& after.position() == before.position() + served
                    &&& served <= space.len()
                    &&& served == 0 <==> space.len() == 0 || before.position() >= plaintext.len()
                    &&& served > 0 ==> after.position() <= plaintext.len()
                    &&& served > 0 ==> output.take(served as int) == plaintext.subrange(
                        before.position() as int,
                        after.position() as int,
                    )
                    &&& output.skip(served as int) == space.skip(served as int)
                },
                Ok(ReadStep::Fetch) => {
                    &&& after.position() == before.position()
                    &&& output == space
                    &&& before.position() < plaintext.len()
                    &&& !(after.request() is Nothing)
                },
                Err(_) => false,
            },
    {
        before.layout().lemma_segments_tile(0);
        before.lemma_source_segment(source, plaintext, 0);
        assert(output.skip(0) =~= output);
        if space.len() > 0 && before.position() < before.layout().plaintext_length() {
            let offset = before.position() as int;
            let position = before.layout().position_of(offset);
            before.layout().lemma_position_of(offset);
            before.layout().lemma_segments_tile(position);
            before.lemma_source_segment(source, plaintext, position);
            let piece = before.message_piece(plaintext, position);
            let count = before.read_count(space.len() as int);
            let from = offset - before.layout().plaintext_start(position);
            assert(piece.subrange(from, from + count) =~= plaintext.subrange(
                offset,
                offset + count,
            ));
            let joined = piece.subrange(from, from + count) + space.skip(count);
            assert(joined.take(count) =~= piece.subrange(from, from + count));
            assert(joined.skip(count) =~= space.skip(count));
            if before.cached_position() == Some(position as u64) {
            } else if before.ready(position as u64) {
                before.lemma_ready_segment(source, plaintext, place, position as u64);
            } else {
                Self::lemma_fetch_on_course(
                    before,
                    after,
                    source,
                    plaintext,
                    place,
                    position as u64,
                    ReadStep::Fetch,
                    result,
                );
            }
        }
    }

    /// A step of reading a range puts what the plaintext holds there in its
    /// place.
    proof fn lemma_range_on_course(
        before: Self,
        after: Self,
        source: Seq<u8>,
        plaintext: Seq<u8>,
        place: int,
        from: RangeRead,
        to: RangeRead,
        old_bytes: Seq<u8>,
        new_bytes: Seq<u8>,
        step: Result<RangeStep, StreamError>,
    )
        requires
            before.on_course(source, plaintext, place),
            after.wf(),
            Self::same_message(before, after),
            from.wf(),
            to.wf(),
            from.end() <= before.layout().plaintext_length(),
            new_bytes.len() == old_bytes.len() <= usize::MAX,
            Self::range_read(before, after, from, to, old_bytes, new_bytes, step),
        ensures
            after.on_course(source, plaintext, place),
            to.start() == from.start(),
            to.end() == from.end(),
            from.written() <= to.written(),
            new_bytes.take(from.written() as int) == old_bytes.take(from.written() as int),
            new_bytes.skip(to.written() as int) == old_bytes.skip(to.written() as int),
            match step {
                Ok(RangeStep::Next) => {
                    &&& from.written() < to.written()
                    &&& new_bytes.subrange(from.written() as int, to.written() as int)
                        == plaintext.subrange(from.reached(), to.reached())
                },
                Ok(RangeStep::Done(count)) => {
                    &&& to == from
                    &&& count == from.written() == from.end() - from.start()
                },
                Ok(RangeStep::Fetch) => {
                    &&& to == from
                    &&& from.written() < from.end() - from.start()
                    &&& !(after.request() is Nothing)
                },
                Err(error) => {
                    &&& to == from
                    &&& old_bytes.len() < from.end() - from.start()
                    &&& error == StreamError::Input(
                        Error::OutputTooSmall {
                            actual: old_bytes.len() as usize,
                            required: (from.end() - from.start()) as usize,
                        },
                    )
                },
            },
    {
        let length = from.end() - from.start();
        if old_bytes.len() >= length && from.written() < length {
            let reached = from.reached();
            let position = before.layout().position_of(reached);
            before.layout().lemma_position_of(reached);
            before.layout().lemma_segments_tile(position);
            before.lemma_source_segment(source, plaintext, position);
            let piece = before.message_piece(plaintext, position);
            let count = before.range_count(from);
            let written = from.written() as int;
            let part = before.range_piece(from, piece);
            assert(part =~= plaintext.subrange(reached, reached + count));
            let joined = old_bytes.take(written) + part + old_bytes.skip(written + count);
            assert(joined.take(written) =~= old_bytes.take(written));
            assert(joined.subrange(written, written + count) =~= part);
            assert(joined.skip(written + count) =~= old_bytes.skip(written + count));
            if !before.covered(from) && before.cached_position() == Some(position as u64) {
            } else if before.ready(position as u64) {
                before.lemma_ready_segment(source, plaintext, place, position as u64);
            } else {
                Self::lemma_fetch_on_course(
                    before,
                    after,
                    source,
                    plaintext,
                    place,
                    position as u64,
                    RangeStep::Fetch,
                    step,
                );
            }
        }
    }

    proof fn lemma_run_on_course(
        readers: Seq<Self>,
        places: Seq<int>,
        source: Seq<u8>,
        start: u64,
        length: u64,
        events: Seq<ReaderEvent>,
        plaintext: Seq<u8>,
        count: nat,
    )
        requires
            Self::run(readers, places, source, start, length, events),
            readers[0].valid_source(source, plaintext),
            0 <= places[0],
            count <= events.len(),
        ensures
            readers[count as int].on_course(source, plaintext, places[count as int]),
            Self::same_message(readers[0], readers[count as int]),
        decreases count,
    {
        if count > 0 {
            let k = count - 1;
            Self::lemma_run_on_course(
                readers,
                places,
                source,
                start,
                length,
                events,
                plaintext,
                k as nat,
            );
            assert(Self::step(
                readers[k],
                readers[k + 1],
                source,
                places[k],
                places[k + 1],
                events[k],
            ));
            Self::lemma_step_on_course(
                readers[k],
                readers[k + 1],
                source,
                plaintext,
                places[k],
                places[k + 1],
                events[k],
            );
        }
    }

    /// What an operation comes to on a source that holds a message which
    /// decrypts to `plaintext`: it hands out that plaintext and nothing else, it
    /// asks for ciphertext, or it refuses what lies outside the message or does
    /// not fit.
    pub open spec fn answers(
        before: Self,
        after: Self,
        plaintext: Seq<u8>,
        event: ReaderEvent,
    ) -> bool {
        let payload = before.session().parameters.segment_length() - 32;
        let at = before.position() as int;
        match event {
            ReaderEvent::AuthenticateEnd { authenticated } => {
                &&& authenticated is Ok
                &&& after.position() == at
            },
            ReaderEvent::Read { space, output, result } => match result {
                Ok(ReadStep::Served(served)) => {
                    &&& after.position() == at + served
                    &&& served <= space.len()
                    &&& served == 0 <==> space.len() == 0 || at >= plaintext.len()
                    &&& served > 0 ==> at + served <= plaintext.len() && output.take(
                        served as int,
                    ) == plaintext.subrange(at, at + served)
                    &&& output.skip(served as int) == space.skip(served as int)
                },
                Ok(ReadStep::Fetch) => {
                    &&& after.position() == at
                    &&& output == space
                    &&& at < plaintext.len()
                    &&& !(after.request() is Nothing)
                },
                Err(_) => false,
            },
            ReaderEvent::ReadSegment { position, segment } => {
                &&& after.position() == at
                &&& match segment {
                    Ok(SegmentStep::Done(bytes)) => {
                        &&& position * payload + bytes@.len() <= plaintext.len()
                        &&& bytes@.len() == payload || position * payload + bytes@.len()
                            == plaintext.len()
                        &&& bytes@ == plaintext.subrange(
                            position * payload,
                            position * payload + bytes@.len(),
                        )
                    },
                    Ok(SegmentStep::Fetch) => !(after.request() is Nothing),
                    Err(error) => {
                        &&& position >= before.layout().segment_count()
                        &&& error == (StreamError::SegmentOutOfRange {
                            position,
                            count: before.layout().segment_count(),
                        })
                    },
                }
            },
            ReaderEvent::ReadSegmentInto { index, room, filled, outcome } => {
                &&& after.position() == at
                &&& match outcome {
                    Ok(ReadStep::Served(served)) => {
                        &&& served <= room.len()
                        &&& index * payload + served <= plaintext.len()
                        &&& served == payload || index * payload + served == plaintext.len()
                        &&& filled.take(served as int) == plaintext.subrange(
                            index * payload,
                            index * payload + served,
                        )
                        &&& filled.skip(served as int) == room.skip(served as int)
                    },
                    Ok(ReadStep::Fetch) => filled == room && !(after.request() is Nothing),
                    Err(StreamError::SegmentOutOfRange { position, count }) => {
                        &&& filled == room
                        &&& position == index
                        &&& index >= count == before.layout().segment_count()
                    },
                    Err(StreamError::Input(Error::OutputTooSmall { actual, required })) => {
                        &&& filled == room
                        &&& actual == room.len() < required
                        &&& index * payload + required <= plaintext.len()
                        &&& required == payload || index * payload + required == plaintext.len()
                    },
                    Err(_) => false,
                }
            },
            ReaderEvent::ReadRange { from, to, old_bytes, new_bytes, step } => {
                &&& after.position() == at
                &&& to.start() == from.start()
                &&& to.end() == from.end()
                &&& from.written() <= to.written()
                &&& new_bytes.take(from.written() as int) == old_bytes.take(from.written() as int)
                &&& new_bytes.skip(to.written() as int) == old_bytes.skip(to.written() as int)
                &&& match step {
                    Ok(RangeStep::Next) => {
                        &&& from.written() < to.written()
                        &&& new_bytes.subrange(from.written() as int, to.written() as int)
                            == plaintext.subrange(
                            from.start() + from.written(),
                            from.start() + to.written(),
                        )
                    },
                    Ok(RangeStep::Done(count)) => {
                        &&& to == from
                        &&& count == from.written() == from.end() - from.start()
                    },
                    Ok(RangeStep::Fetch) => {
                        &&& to == from
                        &&& from.written() < from.end() - from.start()
                        &&& !(after.request() is Nothing)
                    },
                    Err(error) => {
                        &&& to == from
                        &&& old_bytes.len() < from.end() - from.start()
                        &&& error == StreamError::Input(
                            Error::OutputTooSmall {
                                actual: old_bytes.len() as usize,
                                required: (from.end() - from.start()) as usize,
                            },
                        )
                    },
                }
            },
            ReaderEvent::Seek { target, sought } => {
                let wanted = match target {
                    SeekTarget::Start(offset) => offset as int,
                    SeekTarget::End(delta) => plaintext.len() + delta,
                    SeekTarget::Current(delta) => at + delta,
                };
                if 0 <= wanted <= 0xffff_ffff_ffff_ffff {
                    &&& sought == Ok::<u64, StreamError>(wanted as u64)
                    &&& after.position() == wanted
                } else {
                    &&& sought == Err::<u64, StreamError>(StreamError::SeekOutOfRange)
                    &&& after.position() == at
                }
            },
            ReaderEvent::Move => after.position() == at,
            ReaderEvent::Fill { .. } => after.position() == at,
            ReaderEvent::Record { recorded, .. } => after.position() == at && recorded is Ok,
        }
    }

    /// Segments are served as a whole.
    proof fn lemma_segment_answers(
        before: Self,
        after: Self,
        source: Seq<u8>,
        plaintext: Seq<u8>,
        place: int,
        next: int,
        event: ReaderEvent,
    )
        requires
            before.on_course(source, plaintext, place),
            Self::step(before, after, source, place, next, event),
            event is ReadSegment || event is ReadSegmentInto,
        ensures
            Self::answers(before, after, plaintext, event),
    {
        let position = match event {
            ReaderEvent::ReadSegment { position, .. } => position,
            ReaderEvent::ReadSegmentInto { index, .. } => index,
            _ => 0u64,
        };
        if position < before.layout().segment_count() {
            before.lemma_source_segment(source, plaintext, position as int);
            before.layout().lemma_segments_tile(position as int);
            let piece = before.message_piece(plaintext, position as int);
            if before.ready(position) {
                before.lemma_ready_segment(source, plaintext, place, position);
                if let ReaderEvent::ReadSegmentInto { room, .. } = event {
                    let size = before.layout().plaintext_size(position as int);
                    let joined = piece + room.skip(size);
                    assert(joined.take(size) =~= piece);
                    assert(joined.skip(size) =~= room.skip(size));
                }
            } else {
                match event {
                    ReaderEvent::ReadSegment { segment, .. } => {
                        Self::lemma_fetch_on_course(
                            before,
                            after,
                            source,
                            plaintext,
                            place,
                            position,
                            SegmentStep::Fetch,
                            segment,
                        );
                    },
                    ReaderEvent::ReadSegmentInto { room, outcome, .. } => {
                        if before.segment_error(position, room.len() as int) is None {
                            Self::lemma_fetch_on_course(
                                before,
                                after,
                                source,
                                plaintext,
                                place,
                                position,
                                ReadStep::Fetch,
                                outcome,
                            );
                        }
                    },
                    _ => {},
                }
            }
        }
    }

    proof fn lemma_step_answers(
        before: Self,
        after: Self,
        source: Seq<u8>,
        plaintext: Seq<u8>,
        place: int,
        next: int,
        event: ReaderEvent,
    )
        requires
            before.on_course(source, plaintext, place),
            Self::step(before, after, source, place, next, event),
        ensures
            Self::answers(before, after, plaintext, event),
    {
        before.layout().lemma_segments_tile(0);
        before.lemma_source_segment(source, plaintext, 0);
        match event {
            ReaderEvent::AuthenticateEnd { authenticated } => {
                before.lemma_ready_segment(
                    source,
                    plaintext,
                    place,
                    (before.layout().segment_count() - 1) as u64,
                );
            },
            ReaderEvent::Read { space, output, result } => {
                Self::lemma_read_on_course(
                    before,
                    after,
                    source,
                    plaintext,
                    place,
                    space,
                    output,
                    result,
                );
            },
            ReaderEvent::ReadSegment { .. } => {
                Self::lemma_segment_answers(before, after, source, plaintext, place, next, event);
            },
            ReaderEvent::ReadSegmentInto { .. } => {
                Self::lemma_segment_answers(before, after, source, plaintext, place, next, event);
            },
            ReaderEvent::ReadRange { from, to, old_bytes, new_bytes, step } => {
                Self::lemma_range_on_course(
                    before,
                    after,
                    source,
                    plaintext,
                    place,
                    from,
                    to,
                    old_bytes,
                    new_bytes,
                    step,
                );
            },
            ReaderEvent::Record { read, recorded } => {
                Self::lemma_record_on_course(
                    before,
                    after,
                    source,
                    plaintext,
                    place,
                    read as int,
                    recorded,
                );
            },
            _ => {},
        }
    }

    /// A message that decrypts is read at random without an error: on a source
    /// that holds it, whatever is done in whatever order, every operation hands
    /// out the plaintext that it is asked for, or asks for ciphertext. Nothing
    /// fails but what lies outside the message or does not fit.
    pub proof fn lemma_valid_run(
        readers: Seq<Self>,
        places: Seq<int>,
        source: Seq<u8>,
        start: u64,
        length: u64,
        events: Seq<ReaderEvent>,
        plaintext: Seq<u8>,
        index: int,
    )
        requires
            Self::run(readers, places, source, start, length, events),
            readers[0].valid_source(source, plaintext),
            0 <= places[0],
            0 <= index < events.len(),
        ensures
            Self::answers(readers[index], readers[index + 1], plaintext, events[index]),
            readers[index].layout().plaintext_length() == plaintext.len(),
    {
        Self::lemma_run_on_course(
            readers,
            places,
            source,
            start,
            length,
            events,
            plaintext,
            index as nat,
        );
        assert(Self::step(
            readers[index],
            readers[index + 1],
            source,
            places[index],
            places[index + 1],
            events[index],
        ));
        readers[index].layout().lemma_segments_tile(0);
        readers[index].lemma_source_segment(source, plaintext, 0);
        Self::lemma_step_answers(
            readers[index],
            readers[index + 1],
            source,
            plaintext,
            places[index],
            places[index + 1],
            events[index],
        );
    }

    /// One more operation that is not a seek extends what reads have returned.
    proof fn lemma_read_extends(
        before: Self,
        after: Self,
        plaintext: Seq<u8>,
        event: ReaderEvent,
        from: int,
        read: Seq<u8>,
    )
        requires
            Self::answers(before, after, plaintext, event),
            !(event is Seek),
            0 <= from <= before.position() <= plaintext.len(),
            read == plaintext.subrange(from, before.position() as int),
        ensures
            before.position() <= after.position() <= plaintext.len(),
            read + event.returned() == plaintext.subrange(from, after.position() as int),
            (event matches ReaderEvent::Read { space, result, .. } && space.len() > 0 && result
                == Ok::<ReadStep, StreamError>(ReadStep::Served(0))) ==> read + event.returned()
                == plaintext.skip(from),
    {
        if let ReaderEvent::Read { output, result: Ok(ReadStep::Served(served)), .. } = event {
            if served == 0 {
                assert(output.take(0) =~= Seq::empty());
            }
        }
        let to = after.position() as int;
        assert(read + event.returned() =~= plaintext.subrange(from, to));
        assert(to == plaintext.len() ==> plaintext.subrange(from, to) =~= plaintext.skip(from));
    }

    /// What reads return, one after another, is the plaintext from where they
    /// start: from any state on, until the reader is moved by a seek, the bytes
    /// that reads return are the plaintext between the first position and the
    /// last one, whatever buffers are read into and whatever else is read in
    /// between. Once a read into a buffer that is not empty returns nothing,
    /// they are all of the plaintext from the first position on.
    pub proof fn lemma_reading_on(
        readers: Seq<Self>,
        places: Seq<int>,
        source: Seq<u8>,
        start: u64,
        length: u64,
        events: Seq<ReaderEvent>,
        plaintext: Seq<u8>,
        first: int,
        last: int,
    )
        requires
            Self::run(readers, places, source, start, length, events),
            readers[0].valid_source(source, plaintext),
            0 <= places[0],
            0 <= first <= last <= events.len(),
            readers[first].position() <= plaintext.len(),
            forall|k: int| first <= k < last ==> !((#[trigger] events[k]) is Seek),
        ensures
            readers[first].position() <= readers[last].position() <= plaintext.len(),
            bytes_read(events.subrange(first, last)) == plaintext.subrange(
                readers[first].position() as int,
                readers[last].position() as int,
            ),
            first < last && (events[last - 1] matches ReaderEvent::Read { space, result, .. }
                && space.len() > 0 && result == Ok::<ReadStep, StreamError>(ReadStep::Served(0)))
                ==> bytes_read(events.subrange(first, last)) == plaintext.skip(
                readers[first].position() as int,
            ),
        decreases last - first,
    {
        let part = events.subrange(first, last);
        let from = readers[first].position() as int;
        if first == last {
            assert(part =~= Seq::empty());
            assert(plaintext.subrange(from, from) =~= Seq::empty());
        } else {
            let k = last - 1;
            Self::lemma_reading_on(
                readers,
                places,
                source,
                start,
                length,
                events,
                plaintext,
                first,
                k,
            );
            assert(part.drop_last() =~= events.subrange(first, k));
            assert(part.last() == events[k]);
            assert(!(events[k] is Seek));
            Self::lemma_valid_run(
                readers,
                places,
                source,
                start,
                length,
                events,
                plaintext,
                k,
            );
            Self::lemma_read_extends(
                readers[k],
                readers[last],
                plaintext,
                events[k],
                from,
                bytes_read(events.subrange(first, k)),
            );
        }
    }

    /// A read never stops short: into a buffer that is not empty it reports no
    /// bytes only at or beyond the end of the plaintext, where it changes
    /// nothing. Before the end it serves at least one byte, asks for the segment
    /// of its position, or fails on that segment.
    pub proof fn lemma_read_never_stops_short(
        before: Self,
        after: Self,
        space: Seq<u8>,
        output: Seq<u8>,
        result: Result<ReadStep, StreamError>,
    )
        requires
            before.wf(),
            0 < space.len() <= usize::MAX,
            Self::same_message(before, after),
            Self::read_outcome(before, after, space, output, result),
        ensures
            result == Ok::<ReadStep, StreamError>(ReadStep::Served(0)) <==> before.position()
                >= before.layout().plaintext_length(),
            before.position() >= before.layout().plaintext_length() ==> after == before && output
                == space,
            result matches Ok(ReadStep::Served(served)) ==> served <= space.len()
                && after.position() == before.position() + served,
            result == Ok::<ReadStep, StreamError>(ReadStep::Fetch) ==> after.position()
                == before.position() && !(after.request() is Nothing),
            result is Err ==> after.position() == before.position() && output == space,
            forall|position: u64|
                before.ready(position) || before.cached_position() == Some(position) ==> position
                    * (before.layout().parameters().segment_length() - 32) <= before.position() < (
                position + 1) * (before.layout().parameters().segment_length() - 32) ==> result
                    != Ok::<ReadStep, StreamError>(ReadStep::Fetch),
    {
        assert forall|position: u64|
            (before.ready(position) || before.cached_position() == Some(position)) && position * (
            before.layout().parameters().segment_length() - 32) <= before.position() < (position
                + 1) * (before.layout().parameters().segment_length() - 32) implies result
            != Ok::<ReadStep, StreamError>(ReadStep::Fetch) by {
            before.layout().lemma_position_of_bounds(
                before.position() as int,
                position as int,
            );
        }
        if before.position() < before.layout().plaintext_length() {
            let offset = before.position() as int;
            let position = before.layout().position_of(offset);
            before.layout().lemma_position_of(offset);
            before.layout().lemma_segments_tile(position);
        }
    }

    /// Relative seeks are relative: a seek by a distance from the current
    /// position leads that far from it and says so, a seek by nothing stays, one
    /// seek after another comes to one by the sum, and a position that cannot be
    /// represented is refused and not taken. Nothing but the position changes.
    pub proof fn lemma_relative_seeks(
        first: Self,
        second: Self,
        third: Self,
        direct: Self,
        distance: i64,
        more: i64,
        sum: i64,
        one: Result<u64, StreamError>,
        two: Result<u64, StreamError>,
        both: Result<u64, StreamError>,
    )
        requires
            Self::same_message(first, second),
            Self::same_message(second, third),
            Self::same_message(first, direct),
            Self::sought_to(first, second, SeekTarget::Current(distance), one),
            Self::sought_to(second, third, SeekTarget::Current(more), two),
            Self::sought_to(first, direct, SeekTarget::Current(sum), both),
            sum == distance + more,
        ensures
            0 <= first.position() + distance <= 0xffff_ffff_ffff_ffff ==> one == Ok::<
                u64,
                StreamError,
            >((first.position() + distance) as u64) && second.position() == first.position()
                + distance,
            !(0 <= first.position() + distance <= 0xffff_ffff_ffff_ffff) ==> one == Err::<
                u64,
                StreamError,
            >(StreamError::SeekOutOfRange) && second.position() == first.position(),
            distance == 0 ==> one == Ok::<u64, StreamError>(first.position())
                && second.position() == first.position(),
            one is Ok && two is Ok ==> both == two && direct.position() == third.position(),
            second.fetch() == first.fetch(),
            second.cached_position() == first.cached_position(),
            second.inner_position() == first.inner_position(),
    {
    }

    /// A seek from the start leads to the position that it names, and a seek
    /// from the end to as far from the end of the plaintext, wherever the reader
    /// was; from the start and then on is from the start by the sum.
    pub proof fn lemma_absolute_seeks(
        first: Self,
        second: Self,
        third: Self,
        end: Self,
        offset: u64,
        distance: i64,
        one: Result<u64, StreamError>,
        two: Result<u64, StreamError>,
        three: Result<u64, StreamError>,
    )
        requires
            Self::same_message(first, second),
            Self::same_message(second, third),
            Self::same_message(first, end),
            Self::sought_to(first, second, SeekTarget::Start(offset), one),
            Self::sought_to(second, third, SeekTarget::Current(distance), two),
            Self::sought_to(first, end, SeekTarget::End(distance), three),
        ensures
            one == Ok::<u64, StreamError>(offset),
            second.position() == offset,
            0 <= offset + distance <= 0xffff_ffff_ffff_ffff ==> third.position() == offset
                + distance,
            ({
                let length = first.layout().plaintext_length();
                if 0 <= length + distance <= 0xffff_ffff_ffff_ffff {
                    &&& three == Ok::<u64, StreamError>((length + distance) as u64)
                    &&& end.position() == length + distance
                } else {
                    &&& three == Err::<u64, StreamError>(StreamError::SeekOutOfRange)
                    &&& end.position() == first.position()
                }
            }),
    {
    }

    /// Opening a message asks for its final segment first, where that starts in
    /// the source, and then for the start of the body, after the header of 74
    /// bytes.
    pub proof fn lemma_opening_requests(
        before: Self,
        ready: Self,
        after: Self,
        start: u64,
        length: u64,
        result: Result<(), StreamError>,
    )
        requires
            before.fresh(before.session(), start, length),
            ready.wf(),
            Self::same_message(before, ready),
            Self::end_authenticated(ready, after, result),
            Self::same_message(ready, after),
            result is Ok,
        ensures
            before.position() == 0,
            before.request() == Request::Seek(
                (start + 74 + (before.layout().segment_count() - 1)
                    * before.session().parameters.segment_length()) as u64,
            ),
            after.request() == Request::Seek((start + 74) as u64) || (after.request() is Nothing
                && after.inner_position() == Some((start + 74) as u64)),
            ready.plaintext_at((before.layout().segment_count() - 1) as u64) is Ok,
    {
    }

    /// Reading on needs no more than it must: once a read has served part of a
    /// segment, the plaintext of that segment is kept for the next one, and once
    /// a segment is read, the wrapped reader is known to stand where the segment
    /// ends, so that the segment after it is read without moving it.
    pub proof fn lemma_reading_on_needs_little(
        before: Self,
        after: Self,
        source: Seq<u8>,
        place: int,
        next: int,
        event: ReaderEvent,
    )
        requires
            before.wf(),
            Self::step(before, after, source, place, next, event),
        ensures
            ({
                let full = before.session().parameters.segment_length();
                match event {
                    ReaderEvent::Read { result: Ok(ReadStep::Served(served)), .. } => served > 0
                        ==> (after.cached_position() matches Some(kept) && kept * (full - 32)
                        <= before.position() < (kept + 1) * (full - 32)),
                    ReaderEvent::Read { result: Ok(ReadStep::Fetch), .. } => {
                        &&& after.awaited() matches Some(wanted)
                        &&& before.inner_position() == Some(
                            (before.message_start() + 74 + wanted * full) as u64,
                        ) ==> after.request() is Read
                    },
                    ReaderEvent::Record { read, .. } => before.target().len() == read > 0
                        && before.awaited() is Some && before.awaited()->0 + 1
                        < before.layout().segment_count() ==> {
                        let end = before.message_start() + 74 + (before.awaited()->0 + 1) * full;
                        end <= u64::MAX ==> after.inner_position() == Some(end as u64)
                    },
                    _ => true,
                }
            }),
    {
        let full = before.session().parameters.segment_length();
        match event {
            ReaderEvent::Read { space, .. } => {
                if before.position() < before.layout().plaintext_length() {
                    let offset = before.position() as int;
                    let position = before.layout().position_of(offset);
                    before.layout().lemma_position_of(offset);
                    before.layout().lemma_position_of_bounds(offset, position);
                }
            },
            ReaderEvent::Record { .. } => {
                if before.awaited() is Some {
                    let wanted = before.awaited()->0 as int;
                    before.layout().lemma_segments_tile(wanted);
                }
            },
            _ => {},
        }
    }

    /// What input is refused: a source that ends inside a segment, which is then
    /// shorter than the layout has it.
    pub proof fn lemma_refused_input(
        before: Self,
        after: Self,
        read: int,
        recorded: Result<(), StreamError>,
    )
        requires
            before.wf(),
            before.request() is Read,
            0 <= read <= before.target().len(),
            Self::input_recorded(before, after, read, recorded),
        ensures
            recorded is Err <==> read == 0,
            read == 0 ==> recorded == Err::<(), StreamError>(
                StreamError::Decryption(
                    Error::InvalidCiphertextLength {
                        actual: before.held().len() as usize,
                        required: LengthRequirement::Exactly(
                            (before.held().len() + before.target().len()) as usize,
                        ),
                    },
                ),
            ) && after.request() is Nothing && after.awaited() is None,
    {
    }

    /// The segment that this reader waits for, or has there.
    pub open spec fn awaited(&self) -> Option<u64> {
        match self.fetch() {
            FetchState::Seek { segment, .. } => Some(segment.position()),
            FetchState::Read { segment, .. } => Some(segment.position()),
            FetchState::Ready { segment } => Some(segment.position()),
            _ => None,
        }
    }

    /// Following requests brings the segment that was asked for: moving the
    /// wrapped reader leads to reading the whole of that segment, each byte that
    /// is read brings its end nearer, and then the segment is there.
    pub proof fn lemma_requests_bring_segment(
        before: Self,
        after: Self,
        source: Seq<u8>,
        place: int,
        next: int,
        event: ReaderEvent,
        position: u64,
    )
        requires
            before.wf(),
            before.awaited() == Some(position),
            Self::step(before, after, source, place, next, event),
            event is Move || (event matches ReaderEvent::Record { read, .. } && read > 0),
        ensures
            after.awaited() == Some(position),
            match event {
                ReaderEvent::Move => {
                    &&& next == before.message_start() + 74 + position
                        * before.session().parameters.segment_length()
                    &&& after.request() is Read
                    &&& after.target().len() >= 32
                    &&& after.held().len() == 0
                },
                ReaderEvent::Record { read, .. } => if read < before.target().len() {
                    &&& after.request() is Read
                    &&& after.target().len() == before.target().len() - read
                } else {
                    after.ready(position)
                },
                _ => false,
            },
    {
    }

    /// An operation that needs a segment waits for that one, and is served once
    /// it is there.
    pub proof fn lemma_needs_are_awaited(
        before: Self,
        after: Self,
        source: Seq<u8>,
        place: int,
        next: int,
        event: ReaderEvent,
    )
        requires
            before.wf(),
            Self::step(before, after, source, place, next, event),
        ensures
            ({
                let payload = before.session().parameters.segment_length() - 32;
                match event {
                    ReaderEvent::Read { result: Ok(ReadStep::Fetch), .. } => {
                        &&& after.awaited() matches Some(wanted)
                        &&& wanted * payload <= before.position() < (wanted + 1) * payload
                        &&& !before.ready(wanted)
                        &&& !(after.request() is Nothing)
                    },
                    ReaderEvent::ReadSegment { position, segment } => {
                        &&& segment matches Ok(SegmentStep::Fetch) ==> after.awaited() == Some(
                            position,
                        ) && !before.ready(position) && !(after.request() is Nothing)
                    },
                    ReaderEvent::ReadSegmentInto { index, outcome, .. } => {
                        &&& outcome == Ok::<ReadStep, StreamError>(ReadStep::Fetch)
                            ==> after.awaited() == Some(index) && !before.ready(index) && !(
                        after.request() is Nothing)
                    },
                    ReaderEvent::ReadRange { from, step: Ok(RangeStep::Fetch), .. } => {
                        &&& after.awaited() matches Some(wanted)
                        &&& wanted * payload <= from.reached() < (wanted + 1) * payload
                        &&& !before.ready(wanted)
                        &&& !(after.request() is Nothing)
                    },
                    _ => true,
                }
            }),
    {
        match event {
            ReaderEvent::Read { result: Ok(ReadStep::Fetch), .. } => {
                let offset = before.position() as int;
                let position = before.layout().position_of(offset);
                before.layout().lemma_position_of(offset);
                before.layout().lemma_position_of_bounds(offset, position);
            },
            ReaderEvent::ReadRange { from, step: Ok(RangeStep::Fetch), .. } => {
                let offset = from.reached();
                let position = before.layout().position_of(offset);
                before.layout().lemma_position_of(offset);
                before.layout().lemma_position_of_bounds(offset, position);
            },
            _ => {},
        }
    }

    /// A range, and what its buffer holds, after the first `count` events.
    pub open spec fn range_state(
        events: Seq<ReaderEvent>,
        range: RangeRead,
        bytes: Seq<u8>,
        count: nat,
    ) -> (RangeRead, Seq<u8>)
        decreases count,
    {
        if count == 0 {
            (range, bytes)
        } else {
            match events[count - 1] {
                ReaderEvent::ReadRange { to, new_bytes, .. } => (to, new_bytes),
                _ => Self::range_state(events, range, bytes, (count - 1) as nat),
            }
        }
    }

    /// All steps of reading a range among the first `count` events go on with
    /// one range and one buffer.
    pub open spec fn one_range(
        events: Seq<ReaderEvent>,
        range: RangeRead,
        bytes: Seq<u8>,
        count: nat,
    ) -> bool {
        forall|k: int|
            0 <= k < count ==> ((#[trigger] events[k]) matches ReaderEvent::ReadRange {
                from,
                old_bytes,
                ..
            } ==> (from, old_bytes) == Self::range_state(events, range, bytes, k as nat))
    }

    /// Reading a range gives that range of the plaintext: step by step the
    /// buffer fills with the bytes of the range, in order, with nothing beyond
    /// them touched, and when the range is done it is all there.
    pub proof fn lemma_range_run(
        readers: Seq<Self>,
        places: Seq<int>,
        source: Seq<u8>,
        start: u64,
        length: u64,
        events: Seq<ReaderEvent>,
        plaintext: Seq<u8>,
        range: RangeRead,
        bytes: Seq<u8>,
        count: nat,
    )
        requires
            Self::run(readers, places, source, start, length, events),
            readers[0].valid_source(source, plaintext),
            0 <= places[0],
            count <= events.len(),
            Self::one_range(events, range, bytes, count),
            range.wf(),
            range.written() == 0,
            range.end() <= plaintext.len(),
            range.end() - range.start() <= bytes.len(),
        ensures
            ({
                let (now, held) = Self::range_state(events, range, bytes, count);
                &&& now.start() == range.start()
                &&& now.end() == range.end()
                &&& now.written() <= range.end() - range.start()
                &&& held.len() == bytes.len()
                &&& held.take(now.written() as int) == plaintext.subrange(
                    range.start() as int,
                    range.start() + now.written(),
                )
                &&& held.skip(now.written() as int) == bytes.skip(now.written() as int)
                &&& count > 0 ==> (events[count - 1] matches ReaderEvent::ReadRange { step, .. }
                    ==> (step matches Ok(RangeStep::Done(total)) ==> total == range.end()
                    - range.start() && held.take(total as int) == plaintext.subrange(
                    range.start() as int,
                    range.end() as int,
                )))
            }),
        decreases count,
    {
        if count == 0 {
            assert(bytes.take(0) =~= plaintext.subrange(range.start() as int, range.start() as int));
        } else {
            let k = count - 1;
            Self::lemma_range_run(
                readers,
                places,
                source,
                start,
                length,
                events,
                plaintext,
                range,
                bytes,
                k as nat,
            );
            Self::lemma_valid_run(
                readers,
                places,
                source,
                start,
                length,
                events,
                plaintext,
                k,
            );
            assert(Self::step(
                readers[k],
                readers[k + 1],
                source,
                places[k],
                places[k + 1],
                events[k],
            ));
            if let ReaderEvent::ReadRange { from, to, old_bytes, new_bytes, step } = events[k] {
                Self::lemma_range_extends(plaintext, from, to, old_bytes, new_bytes, bytes, step);
            }
        }
    }

    /// One step of reading a range extends what was read of it.
    proof fn lemma_range_extends(
        plaintext: Seq<u8>,
        from: RangeRead,
        to: RangeRead,
        old_bytes: Seq<u8>,
        new_bytes: Seq<u8>,
        bytes: Seq<u8>,
        step: Result<RangeStep, StreamError>,
    )
        requires
            from.wf(),
            to.wf(),
            from.end() <= plaintext.len(),
            from.end() - from.start() <= old_bytes.len(),
            new_bytes.len() == old_bytes.len() == bytes.len(),
            old_bytes.take(from.written() as int) == plaintext.subrange(
                from.start() as int,
                from.start() + from.written(),
            ),
            old_bytes.skip(from.written() as int) == bytes.skip(from.written() as int),
            to.start() == from.start(),
            to.end() == from.end(),
            from.written() <= to.written(),
            new_bytes.take(from.written() as int) == old_bytes.take(from.written() as int),
            new_bytes.skip(to.written() as int) == old_bytes.skip(to.written() as int),
            step == Ok::<RangeStep, StreamError>(RangeStep::Next) ==> new_bytes.subrange(
                from.written() as int,
                to.written() as int,
            ) == plaintext.subrange(
                from.start() + from.written(),
                from.start() + to.written(),
            ),
            step != Ok::<RangeStep, StreamError>(RangeStep::Next) ==> to == from,
        ensures
            new_bytes.take(to.written() as int) == plaintext.subrange(
                to.start() as int,
                to.start() + to.written(),
            ),
            new_bytes.skip(to.written() as int) == bytes.skip(to.written() as int),
    {
        let before = from.written() as int;
        let now = to.written() as int;
        assert(new_bytes.take(now) =~= new_bytes.take(before) + new_bytes.subrange(before, now));
        assert(new_bytes.take(now) =~= plaintext.subrange(
            to.start() as int,
            to.start() + to.written(),
        ));
        assert(old_bytes.skip(now) =~= old_bytes.skip(before).skip(now - before));
        assert(bytes.skip(now) =~= bytes.skip(before).skip(now - before));
    }
}

/// A range holds the positions that its bounds admit: from an included start,
/// or after an excluded one, or from the beginning, up to and with an included
/// end, or before an excluded one, or before the end of the plaintext. It is
/// refused where a bound has no next position, where it does not lie in the
/// plaintext, and where it is longer than memory can be.
pub proof fn lemma_range_bounds(
    start: RangeBound,
    end: RangeBound,
    length: u64,
    result: Result<RangeRead, StreamError>,
)
    requires
        range_resolved(start, end, length, result),
    ensures
        ({
            let first = match start {
                RangeBound::Included(position) => position as int,
                RangeBound::Excluded(position) => position + 1,
                RangeBound::Unbounded => 0,
            };
            let beyond = match end {
                RangeBound::Included(position) => position + 1,
                RangeBound::Excluded(position) => position as int,
                RangeBound::Unbounded => length as int,
            };
            if first > 0xffff_ffff_ffff_ffff || beyond > 0xffff_ffff_ffff_ffff {
                result == Err::<RangeRead, StreamError>(StreamError::Input(Error::LengthOverflow))
            } else if first > beyond || beyond > length {
                result == Err::<RangeRead, StreamError>(
                    StreamError::RangeOutOfBounds {
                        start: first as u64,
                        end: beyond as u64,
                        length,
                    },
                )
            } else if beyond - first > usize::MAX {
                result == Err::<RangeRead, StreamError>(StreamError::Input(Error::LengthOverflow))
            } else {
                &&& result matches Ok(range)
                &&& range.start() == first
                &&& range.end() == beyond
                &&& range.written() == 0
            }
        }),
{
}

/// A message that extends to the end of its source is as long as what lies
/// between its start and that end, and there is none where the source ends
/// before. It has room for its header from 74 bytes on.
pub proof fn lemma_message_extent(
    end: u64,
    message_start: u64,
    found: Result<u64, StreamError>,
    length: u64,
    validated: Result<(), StreamError>,
)
    requires
        length_found(end, message_start, found),
        header_bound_validated(length, validated),
    ensures
        match found {
            Ok(between) => message_start + between == end,
            Err(error) => end < message_start && error == StreamError::EndsBeforeStart,
        },
        match validated {
            Ok(_) => 74 <= length,
            Err(error) => length < 74 && error == StreamError::Decryption(
                Error::InvalidHeaderLength { actual: length as usize },
            ),
        },
{
}

} // verus!
