use crate::bytes::{be32, decode_be32, from_be32, lemma_be32_round_trip};
use crate::error::{Error, LengthRequirement};
use crate::parameters::{
    Parameters, SegmentKind, AEAD_MAX_SEGMENTS, HEADER_LENGTH, SEGMENT_OVERHEAD,
    SEGMENT_PREFIX_LENGTH,
};
use vstd::arithmetic::div_mod::{
    lemma_fundamental_div_mod, lemma_fundamental_div_mod_converse,
};
use vstd::prelude::*;

verus! {

const HEADER_LENGTH_U64: u64 = 74;

const SEGMENT_OVERHEAD_U64: u64 = 32;

/// Complete length and segment layout for one FLOE message.
///
/// Construct this with [`Parameters::plaintext_layout`] when the plaintext
/// length is known, or [`Parameters::ciphertext_layout`] when the complete
/// ciphertext length is known.
///
/// Each [`SegmentLayout`] supplies the offsets, lengths, position,
/// and [`SegmentKind`] needed by the random-access encryption and
/// decryption APIs.
#[derive(Clone, Copy, Debug, PartialEq, Eq, Structural)]
pub struct MessageLayout {
    parameters: Parameters,
    plaintext_length: u64,
    ciphertext_length: u64,
    segment_count: u64,
}

/// Offsets and lengths for one segment in a [`MessageLayout`].
#[derive(Clone, Copy, Debug, PartialEq, Eq, Structural)]
pub struct SegmentLayout {
    parameters: Parameters,
    position: u64,
    plaintext_offset: u64,
    plaintext_length: usize,
    ciphertext_offset: u64,
    ciphertext_length: usize,
    kind: SegmentKind,
}

impl MessageLayout {
    pub closed spec fn spec_parameters(self) -> Parameters {
        self.parameters
    }

    pub closed spec fn spec_plaintext_length(self) -> u64 {
        self.plaintext_length
    }

    pub closed spec fn spec_ciphertext_length(self) -> u64 {
        self.ciphertext_length
    }

    pub closed spec fn spec_segment_count(self) -> u64 {
        self.segment_count
    }

    /// All segments but the last are full, the last is at most full, and the
    /// ciphertext is the header, the plaintext, and the framing of every
    /// segment.
    #[verifier::type_invariant]
    pub open spec fn wf(self) -> bool {
        let payload = self.parameters().payload_length();
        &&& self.parameters().wf()
        &&& 1 <= self.segment_count() <= AEAD_MAX_SEGMENTS
        &&& (self.segment_count() - 1) * payload <= self.plaintext_length()
        &&& self.plaintext_length() <= self.segment_count() * payload
        &&& self.ciphertext_length() == HEADER_LENGTH + self.plaintext_length() + SEGMENT_OVERHEAD
            * self.segment_count()
    }

    /// Returns the parameter set used by this layout.
    #[verifier::when_used_as_spec(spec_parameters)]
    pub fn parameters(self) -> (parameters: Parameters)
        ensures
            parameters == self.parameters(),
    {
        self.parameters
    }

    /// Returns the complete plaintext length.
    #[verifier::when_used_as_spec(spec_plaintext_length)]
    pub fn plaintext_length(self) -> (length: u64)
        ensures
            length == self.plaintext_length(),
    {
        self.plaintext_length
    }

    /// Returns the complete ciphertext length, including the FLOE header.
    #[verifier::when_used_as_spec(spec_ciphertext_length)]
    pub fn ciphertext_length(self) -> (length: u64)
        ensures
            length == self.ciphertext_length(),
    {
        self.ciphertext_length
    }

    /// Returns the number of segments, including exactly one final segment.
    #[verifier::when_used_as_spec(spec_segment_count)]
    pub fn segment_count(self) -> (count: u64)
        ensures
            count == self.segment_count(),
    {
        self.segment_count
    }

    /// The kind of the segment at `position`: the last one is final.
    pub open spec fn kind_at(self, position: int) -> SegmentKind {
        if position + 1 == self.segment_count() {
            SegmentKind::Final
        } else {
            SegmentKind::NonFinal
        }
    }

    /// Where the plaintext of the segment at `position` begins.
    pub open spec fn plaintext_start(self, position: int) -> int {
        position * self.parameters().payload_length()
    }

    /// The plaintext length of the segment at `position`.
    pub open spec fn plaintext_size(self, position: int) -> int {
        if self.kind_at(position) is Final {
            self.plaintext_length() - self.plaintext_start(position)
        } else {
            self.parameters().payload_length()
        }
    }

    /// Where the segment at `position` begins in the complete ciphertext.
    pub open spec fn ciphertext_start(self, position: int) -> int {
        HEADER_LENGTH + position * self.parameters().segment_length()
    }

    /// The ciphertext length of the segment at `position`.
    pub open spec fn ciphertext_size(self, position: int) -> int {
        SEGMENT_OVERHEAD + self.plaintext_size(position)
    }

    /// The segments of a message tile its plaintext and its ciphertext: the
    /// first plaintext byte is byte zero of segment zero, the first segment
    /// follows the header, each segment starts where the one before it ends,
    /// and the last one ends the message. Every segment's plaintext fits one
    /// segment, and every segment but the last is full.
    pub proof fn lemma_segments_tile(self, position: int)
        requires
            self.wf(),
            0 <= position < self.segment_count(),
        ensures
            self.plaintext_start(0) == 0,
            self.ciphertext_start(0) == HEADER_LENGTH,
            0 <= self.plaintext_size(position) <= self.parameters().payload_length(),
            self.kind_at(position) is Final <==> position + 1 == self.segment_count(),
            self.kind_at(position) is NonFinal ==> self.plaintext_start(position + 1)
                == self.plaintext_start(position) + self.plaintext_size(position)
                && self.ciphertext_start(position + 1) == self.ciphertext_start(position)
                + self.ciphertext_size(position),
            self.kind_at(position) is Final ==> self.plaintext_start(position)
                + self.plaintext_size(position) == self.plaintext_length()
                && self.ciphertext_start(position) + self.ciphertext_size(position)
                == self.ciphertext_length(),
            0 <= self.plaintext_start(position),
            self.plaintext_start(position) + self.plaintext_size(position)
                <= self.plaintext_length(),
            self.ciphertext_start(position) + self.ciphertext_size(position)
                <= self.ciphertext_length(),
    {
        let payload = self.parameters().payload_length();
        let length = self.parameters().segment_length();
        let count = self.segment_count() as int;
        assert(0 * payload == 0 && 0 * length == 0);
        assert(count * payload == (count - 1) * payload + payload) by (nonlinear_arith);
        assert((position + 1) * payload == position * payload + payload) by (nonlinear_arith);
        assert((position + 1) * length == position * length + length) by (nonlinear_arith);
        assert(position * length == position * payload + 32 * position) by (nonlinear_arith)
            requires
                length == payload + 32,
        ;
        assert(SEGMENT_OVERHEAD * count == 32 * count) by (nonlinear_arith)
            requires
                SEGMENT_OVERHEAD == 32,
        ;
        assert(0 <= position * payload) by (nonlinear_arith)
            requires
                0 <= position,
                0 <= payload,
        ;
        if position + 1 < count {
            assert((position + 1) * payload <= (count - 1) * payload) by (nonlinear_arith)
                requires
                    position + 1 <= count - 1,
                    0 <= payload,
            ;
        }
    }

    /// The lengths of a message: a header of 74 bytes, the plaintext, and 32
    /// bytes for each of up to two to the power of forty segments, all of which
    /// but the last are full.
    pub proof fn lemma_lengths(self)
        requires
            self.wf(),
        ensures
            1 <= self.segment_count() <= 0x100_0000_0000,
            self.ciphertext_length() == 74 + self.plaintext_length() + 32 * self.segment_count(),
            (self.segment_count() - 1) * (self.parameters().segment_length() - 32)
                <= self.plaintext_length(),
            self.plaintext_length() <= self.segment_count() * (self.parameters().segment_length()
                - 32),
            self.ciphertext_length() >= 74 + (self.segment_count() - 1)
                * self.parameters().segment_length() + 32,
            self.ciphertext_length() <= 74 + self.segment_count()
                * self.parameters().segment_length(),
    {
        let count = self.segment_count() as int;
        let size = self.parameters().segment_length();
        assert(SEGMENT_OVERHEAD * count == 32 * count) by (nonlinear_arith)
            requires
                SEGMENT_OVERHEAD == 32,
        ;
        assert(count * size == count * (size - 32) + 32 * count) by (nonlinear_arith);
        assert((count - 1) * size == (count - 1) * (size - 32) + 32 * (count - 1))
            by (nonlinear_arith);
    }

    /// Returns the layout of this message's final segment.
    pub fn final_segment(self) -> (segment: SegmentLayout)
        ensures
            self.wf(),
            segment.describes(self, self.segment_count() - 1),
            segment.kind() is Final,
    {
        proof {
            use_type_invariant(&self);
        }
        self.segment_at(self.segment_count - 1)
    }

    fn segment_at(self, position: u64) -> (segment: SegmentLayout)
        requires
            self.wf(),
            position < self.segment_count(),
        ensures
            segment.describes(self, position as int),
    {
        let plaintext_segment_length = self.parameters.plaintext_segment_length() as u64;
        let ciphertext_segment_length = self.parameters.ciphertext_segment_length() as u64;
        proof {
            self.lemma_segments_tile(position as int);
        }
        let plaintext_offset: u64 = position * plaintext_segment_length;
        let kind = if position + 1 == self.segment_count {
            SegmentKind::Final
        } else {
            SegmentKind::NonFinal
        };
        let plaintext_length: usize = match kind {
            SegmentKind::NonFinal => plaintext_segment_length as usize,
            SegmentKind::Final => (self.plaintext_length - plaintext_offset) as usize,
        };
        SegmentLayout {
            parameters: self.parameters,
            position,
            plaintext_offset,
            plaintext_length,
            ciphertext_offset: HEADER_LENGTH_U64 + position * ciphertext_segment_length,
            ciphertext_length: SEGMENT_OVERHEAD + plaintext_length,
            kind,
        }
    }

    /// Returns the [`SegmentLayout`] of `position`, or `None` if it is outside this message.
    ///
    /// The returned values can be passed directly to the corresponding
    /// random-access segment operation.
    pub fn segment_for_position(self, position: u64) -> (segment: Option<SegmentLayout>)
        ensures
            self.wf(),
            match segment {
                Some(segment) => position < self.segment_count() && segment.describes(
                    self,
                    position as int,
                ),
                None => position >= self.segment_count(),
            },
    {
        proof {
            use_type_invariant(&self);
        }
        if position >= self.segment_count {
            return None;
        }
        Some(self.segment_at(position))
    }
}

impl SegmentLayout {
    pub closed spec fn spec_parameters(self) -> Parameters {
        self.parameters
    }

    pub closed spec fn spec_position(self) -> u64 {
        self.position
    }

    pub closed spec fn spec_plaintext_offset(self) -> u64 {
        self.plaintext_offset
    }

    pub closed spec fn spec_plaintext_length(self) -> usize {
        self.plaintext_length
    }

    pub closed spec fn spec_ciphertext_offset(self) -> u64 {
        self.ciphertext_offset
    }

    pub closed spec fn spec_ciphertext_length(self) -> usize {
        self.ciphertext_length
    }

    pub closed spec fn spec_kind(self) -> SegmentKind {
        self.kind
    }

    /// The position is one that a message can have, the plaintext fits a
    /// segment, and fills it unless the segment is final.
    #[verifier::type_invariant]
    pub open spec fn wf(self) -> bool {
        &&& self.parameters().wf()
        &&& self.position() < AEAD_MAX_SEGMENTS
        &&& self.plaintext_length() <= self.parameters().payload_length()
        &&& self.kind() is NonFinal ==> self.plaintext_length()
            == self.parameters().payload_length()
        &&& self.ciphertext_length() == SEGMENT_OVERHEAD + self.plaintext_length()
    }

    /// This is the segment of `layout` at `position`.
    pub open spec fn describes(self, layout: MessageLayout, position: int) -> bool {
        &&& self.wf()
        &&& self.parameters() == layout.parameters()
        &&& self.position() == position
        &&& self.kind() == layout.kind_at(position)
        &&& self.plaintext_offset() == layout.plaintext_start(position)
        &&& self.plaintext_length() == layout.plaintext_size(position)
        &&& self.ciphertext_offset() == layout.ciphertext_start(position)
        &&& self.ciphertext_length() == layout.ciphertext_size(position)
    }

    /// Where a segment stands: the segment at `position` starts that many full
    /// segments after the header of 74 bytes, its plaintext that many full
    /// pieces after the beginning, and only the last one is final and may be
    /// shorter.
    pub proof fn lemma_place(self, layout: MessageLayout, position: int)
        requires
            layout.wf(),
            0 <= position < layout.segment_count(),
            self.describes(layout, position),
        ensures
            self.parameters() == layout.parameters(),
            self.position() == position,
            self.kind() is Final <==> position + 1 == layout.segment_count(),
            self.ciphertext_offset() == 74 + position * layout.parameters().segment_length(),
            self.plaintext_offset() == position * (layout.parameters().segment_length() - 32),
            self.ciphertext_length() == 32 + self.plaintext_length(),
            position + 1 < layout.segment_count() ==> self.ciphertext_length()
                == layout.parameters().segment_length(),
            position + 1 == layout.segment_count() ==> self.ciphertext_offset()
                + self.ciphertext_length() == layout.ciphertext_length() && self.plaintext_offset()
                + self.plaintext_length() == layout.plaintext_length(),
    {
        layout.lemma_segments_tile(position);
    }

    /// A layout has one segment at each position.
    pub proof fn lemma_described_once(
        self,
        other: SegmentLayout,
        layout: MessageLayout,
        position: int,
    )
        requires
            self.describes(layout, position),
            other.describes(layout, position),
        ensures
            self == other,
    {
    }

    /// Returns this segment's zero-based position.
    #[verifier::when_used_as_spec(spec_position)]
    pub fn position(self) -> (position: u64)
        ensures
            position == self.position(),
    {
        self.position
    }

    /// Returns this segment's byte offset in the complete plaintext.
    #[verifier::when_used_as_spec(spec_plaintext_offset)]
    pub fn plaintext_offset(self) -> (offset: u64)
        ensures
            offset == self.plaintext_offset(),
    {
        self.plaintext_offset
    }

    /// Returns this segment's plaintext length.
    #[verifier::when_used_as_spec(spec_plaintext_length)]
    pub fn plaintext_length(self) -> (length: usize)
        ensures
            length == self.plaintext_length(),
    {
        self.plaintext_length
    }

    /// Returns this segment's byte offset in the complete ciphertext,
    /// including the FLOE header.
    #[verifier::when_used_as_spec(spec_ciphertext_offset)]
    pub fn ciphertext_offset(self) -> (offset: u64)
        ensures
            offset == self.ciphertext_offset(),
    {
        self.ciphertext_offset
    }

    /// Returns this segment's ciphertext length.
    #[verifier::when_used_as_spec(spec_ciphertext_length)]
    pub fn ciphertext_length(self) -> (length: usize)
        ensures
            length == self.ciphertext_length(),
    {
        self.ciphertext_length
    }

    /// Returns whether this is the message's final segment.
    pub fn is_final(self) -> (result: bool)
        ensures
            result == (self.kind() is Final),
    {
        self.kind.is_final()
    }

    /// Returns whether this is an internal or final segment.
    #[verifier::when_used_as_spec(spec_kind)]
    pub fn kind(self) -> (kind: SegmentKind)
        ensures
            kind == self.kind(),
    {
        self.kind
    }

    /// Returns the parameter set of the message that this segment belongs to.
    #[verifier::when_used_as_spec(spec_parameters)]
    pub fn parameters(self) -> (parameters: Parameters)
        ensures
            parameters == self.parameters(),
    {
        self.parameters
    }
}

impl Parameters {
    /// How many segments a plaintext of `length` bytes takes.
    pub open spec fn segments_for_plaintext(self, length: int) -> int {
        if length == 0 {
            1
        } else {
            (length - 1) / self.payload_length() + 1
        }
    }

    /// The ciphertext length of a message with `length` plaintext bytes.
    pub open spec fn message_length(self, length: int) -> int {
        HEADER_LENGTH + length + SEGMENT_OVERHEAD * self.segments_for_plaintext(length)
    }

    /// The error, if any, of laying out `length` plaintext bytes.
    pub open spec fn plaintext_layout_error(self, length: u64) -> Option<Error> {
        if self.segments_for_plaintext(length as int) > AEAD_MAX_SEGMENTS {
            Some(Error::SegmentLimit)
        } else if self.message_length(length as int) > u64::MAX {
            Some(Error::LengthOverflow)
        } else {
            None
        }
    }

    /// The last of the segments that a plaintext takes is the first that ends
    /// it, and all before it are full.
    pub proof fn lemma_segments_for_plaintext(self, length: int)
        requires
            self.wf(),
            0 <= length,
        ensures
            ({
                let count = self.segments_for_plaintext(length);
                &&& 1 <= count
                &&& count <= length + 1
                &&& (count - 1) * self.payload_length() <= length
                &&& length <= count * self.payload_length()
                &&& count > 1 ==> (count - 1) * self.payload_length() < length
            }),
    {
        let payload = self.payload_length();
        let count = self.segments_for_plaintext(length);
        if length > 0 {
            lemma_fundamental_div_mod(length - 1, payload);
            let quotient = (length - 1) / payload;
            assert(0 <= quotient <= length - 1) by (nonlinear_arith)
                requires
                    quotient == (length - 1) / payload,
                    1 <= length,
                    1 <= payload,
            ;
            assert(payload * quotient == quotient * payload) by (nonlinear_arith);
            assert((quotient + 1) * payload == quotient * payload + payload) by (nonlinear_arith);
        }
    }

    /// A plaintext takes the fewest segments that hold it, where each holds 32
    /// bytes less than a full segment has, and an empty one takes one segment.
    pub proof fn lemma_fewest_segments(self, length: int, segments: int)
        requires
            self.wf(),
            0 <= length,
            1 <= segments,
            length <= segments * (self.segment_length() - 32),
            segments > 1 ==> (segments - 1) * (self.segment_length() - 32) < length,
        ensures
            self.segments_for_plaintext(length) == segments,
            self.message_length(length) == 74 + length + 32 * segments,
    {
        let payload = self.segment_length() - 32;
        assert(segments * payload == (segments - 1) * payload + payload) by (nonlinear_arith);
        assert(segments == 1 ==> (segments - 1) * payload == 0) by (nonlinear_arith);
        assert(SEGMENT_OVERHEAD * segments == 32 * segments) by (nonlinear_arith)
            requires
                SEGMENT_OVERHEAD == 32,
        ;
        if length == 0 && segments > 1 {
            assert(0 <= (segments - 1) * payload) by (nonlinear_arith)
                requires
                    1 < segments,
                    0 <= payload,
            ;
        }
        if length > 0 {
            lemma_fundamental_div_mod_converse(
                length - 1,
                payload,
                segments - 1,
                length - 1 - (segments - 1) * payload,
            );
        }
    }

    /// Calculates the complete FLOE layout for `plaintext_length`.
    ///
    /// # Errors
    ///
    /// Returns [`Error::SegmentLimit`] when the message would exceed the
    /// specification's segment limit, or [`Error::LengthOverflow`] when the
    /// resulting ciphertext length cannot be represented as a `u64`.
    pub fn plaintext_layout(self, plaintext_length: u64) -> (result: Result<MessageLayout, Error>)
        ensures
            match result {
                Ok(layout) => {
                    &&& self.plaintext_layout_error(plaintext_length) is None
                    &&& layout.wf()
                    &&& layout.parameters() == self
                    &&& layout.plaintext_length() == plaintext_length
                    &&& layout.segment_count() == self.segments_for_plaintext(
                        plaintext_length as int,
                    )
                    &&& layout.ciphertext_length() == self.message_length(plaintext_length as int)
                },
                Err(error) => self.plaintext_layout_error(plaintext_length) == Some(error),
            },
    {
        let plaintext_segment_length = self.plaintext_segment_length() as u64;
        proof {
            self.lemma_segments_for_plaintext(plaintext_length as int);
        }
        let segment_count: u64 = if plaintext_length == 0 {
            1
        } else {
            (plaintext_length - 1) / plaintext_segment_length + 1
        };
        if segment_count > AEAD_MAX_SEGMENTS {
            return Err(Error::SegmentLimit);
        }
        let framing_length: u64 = segment_count * SEGMENT_OVERHEAD_U64;
        assert(SEGMENT_OVERHEAD * segment_count == 32 * segment_count) by (nonlinear_arith)
            requires
                SEGMENT_OVERHEAD == 32,
        ;
        let ciphertext_length = match HEADER_LENGTH_U64.checked_add(plaintext_length) {
            Some(length) => match length.checked_add(framing_length) {
                Some(length) => length,
                None => {
                    return Err(Error::LengthOverflow);
                },
            },
            None => {
                return Err(Error::LengthOverflow);
            },
        };
        Ok(MessageLayout { parameters: self, plaintext_length, ciphertext_length, segment_count })
    }

    /// A plaintext can be laid out unless it overfills two to the power of forty
    /// segments, or its message would be longer than a 64-bit number can say.
    pub proof fn lemma_plaintext_layout_limits(self, length: u64, segments: int)
        requires
            self.wf(),
            1 <= segments,
            length <= segments * (self.segment_length() - 32),
            segments > 1 ==> (segments - 1) * (self.segment_length() - 32) < length,
        ensures
            self.plaintext_layout_error(length) == if length > 0x100_0000_0000 * (
            self.segment_length() - 32) {
                Some(Error::SegmentLimit)
            } else if 74 + length + 32 * segments > 0xffff_ffff_ffff_ffff {
                Some(Error::LengthOverflow)
            } else {
                None
            },
    {
        let payload = self.segment_length() - 32;
        self.lemma_fewest_segments(length as int, segments);
        if segments > 0x100_0000_0000 {
            assert(0x100_0000_0000 * payload <= (segments - 1) * payload) by (nonlinear_arith)
                requires
                    0x100_0000_0000 <= segments - 1,
                    0 <= payload,
            ;
        } else {
            assert(segments * payload <= 0x100_0000_0000 * payload) by (nonlinear_arith)
                requires
                    segments <= 0x100_0000_0000,
                    0 <= payload,
            ;
        }
    }

    /// How many segments a ciphertext body of `length` bytes takes.
    pub open spec fn segments_for_body(self, length: int) -> int {
        (length - 1) / self.segment_length() + 1
    }

    /// The length that a ciphertext body of `length` bytes leaves to its last
    /// segment.
    pub open spec fn last_segment_length(self, length: int) -> int {
        length - (self.segments_for_body(length) - 1) * self.segment_length()
    }

    /// The error, if any, of laying out a ciphertext of `length` bytes.
    pub open spec fn ciphertext_layout_error(self, length: u64) -> Option<Error> {
        let body = length - HEADER_LENGTH;
        if body < 0 {
            Some(Error::InvalidHeaderLength { actual: length as usize })
        } else if body == 0 {
            Some(Error::Truncated)
        } else if self.segments_for_body(body) > AEAD_MAX_SEGMENTS {
            Some(Error::SegmentLimit)
        } else {
            self.segment_length_error(self.last_segment_length(body))
        }
    }

    /// The last of the segments that a body takes is the first that ends it.
    pub proof fn lemma_segments_for_body(self, length: int)
        requires
            self.wf(),
            1 <= length,
        ensures
            1 <= self.segments_for_body(length) <= length,
            0 <= (self.segments_for_body(length) - 1) * self.segment_length() < length,
            1 <= self.last_segment_length(length) <= self.segment_length(),
    {
        let size = self.segment_length();
        let quotient = (length - 1) / size;
        lemma_fundamental_div_mod(length - 1, size);
        assert(0 <= quotient <= length - 1 && 0 <= quotient * size) by (nonlinear_arith)
            requires
                quotient == (length - 1) / size,
                1 <= length,
                1 <= size,
        ;
        assert(size * quotient == quotient * size) by (nonlinear_arith);
    }

    /// What a ciphertext length is taken for: less than a header, a header and
    /// nothing else, or a header of 74 bytes, full segments, and a last segment
    /// of at least 32 bytes, of which there are at most two to the power of
    /// forty.
    pub proof fn lemma_ciphertext_layout_limits(self, length: u64, segments: int, last: int)
        requires
            self.wf(),
        ensures
            length < 74 ==> self.ciphertext_layout_error(length) == Some(
                Error::InvalidHeaderLength { actual: length as usize },
            ),
            length == 74 ==> self.ciphertext_layout_error(length) == Some(Error::Truncated),
            1 <= segments && 1 <= last <= self.segment_length() && length == 74 + (segments - 1)
                * self.segment_length() + last ==> {
                &&& self.segments_for_body(length - 74) == segments
                &&& self.last_segment_length(length - 74) == last
                &&& self.ciphertext_layout_error(length) == if segments > 0x100_0000_0000 {
                    Some(Error::SegmentLimit)
                } else if last < 32 {
                    Some(
                        Error::InvalidCiphertextLength {
                            actual: last as usize,
                            required: LengthRequirement::Between {
                                minimum: 32,
                                maximum: self.segment_length() as usize,
                            },
                        },
                    )
                } else {
                    None
                }
            },
    {
        let size = self.segment_length();
        if 1 <= segments && 1 <= last <= size && length == 74 + (segments - 1) * size + last {
            assert(0 <= (segments - 1) * size) by (nonlinear_arith)
                requires
                    1 <= segments,
                    0 <= size,
            ;
            lemma_fundamental_div_mod_converse(length - 75, size, segments - 1, last - 1);
        }
    }

    /// Calculates the complete FLOE layout for `ciphertext_length`.
    ///
    /// `ciphertext_length` includes the FLOE header. This validates only the
    /// lengths implied by the file size and assumes every preceding segment is
    /// a full non-final segment. Each prefix and authentication tag must still
    /// be validated while decrypting. For streaming input whose complete
    /// length is unavailable, use [`SegmentFraming::decode`] instead.
    ///
    /// # Errors
    ///
    /// Returns an error when the ciphertext is too short, implies an invalid
    /// final segment length, or exceeds the specification's segment limit.
    pub fn ciphertext_layout(self, ciphertext_length: u64) -> (result: Result<
        MessageLayout,
        Error,
    >)
        ensures
            match result {
                Ok(layout) => {
                    &&& self.ciphertext_layout_error(ciphertext_length) is None
                    &&& layout.wf()
                    &&& layout.parameters() == self
                    &&& layout.ciphertext_length() == ciphertext_length
                    &&& layout.segment_count() == self.segments_for_body(
                        ciphertext_length - HEADER_LENGTH,
                    )
                },
                Err(error) => self.ciphertext_layout_error(ciphertext_length) == Some(error),
            },
    {
        let ciphertext_segment_length = self.ciphertext_segment_length() as u64;
        if ciphertext_length < HEADER_LENGTH_U64 {
            return Err(Error::InvalidHeaderLength { actual: ciphertext_length as usize });
        }
        let body_length: u64 = ciphertext_length - HEADER_LENGTH_U64;
        if body_length == 0 {
            return Err(Error::Truncated);
        }
        proof {
            self.lemma_segments_for_body(body_length as int);
        }
        let segment_count: u64 = (body_length - 1) / ciphertext_segment_length + 1;
        if segment_count > AEAD_MAX_SEGMENTS {
            return Err(Error::SegmentLimit);
        }
        let preceding_length: u64 = (segment_count - 1) * ciphertext_segment_length;
        let final_length: u64 = body_length - preceding_length;
        if final_length < SEGMENT_OVERHEAD_U64 {
            return Err(
                Error::InvalidCiphertextLength {
                    actual: final_length as usize,
                    required: LengthRequirement::Between {
                        minimum: SEGMENT_OVERHEAD,
                        maximum: self.ciphertext_segment_length(),
                    },
                },
            );
        }
        let framing_length: u64 = segment_count * SEGMENT_OVERHEAD_U64;
        proof {
            let count = segment_count as int;
            let payload = self.payload_length();
            let size = self.segment_length();
            assert((count - 1) * size == (count - 1) * payload + 32 * (count - 1))
                by (nonlinear_arith)
                requires
                    size == payload + 32,
            ;
            assert(count * payload == (count - 1) * payload + payload) by (nonlinear_arith);
            assert(0 <= (count - 1) * payload) by (nonlinear_arith)
                requires
                    1 <= count,
                    0 <= payload,
            ;
            assert(SEGMENT_OVERHEAD * count == 32 * count) by (nonlinear_arith)
                requires
                    SEGMENT_OVERHEAD == 32,
            ;
        }
        let plaintext_length: u64 = body_length - framing_length;
        Ok(MessageLayout { parameters: self, plaintext_length, ciphertext_length, segment_count })
    }

    /// The layout calculated from a plaintext length comes back from the
    /// ciphertext length that it states.
    pub proof fn lemma_layouts_agree(self, plaintext: MessageLayout, ciphertext: MessageLayout)
        requires
            self.wf(),
            plaintext.wf(),
            plaintext.parameters() == self,
            plaintext.segment_count() == self.segments_for_plaintext(
                plaintext.plaintext_length() as int,
            ),
            ciphertext.wf(),
            ciphertext.parameters() == self,
            ciphertext.ciphertext_length() == plaintext.ciphertext_length(),
            ciphertext.segment_count() == self.segments_for_body(
                plaintext.ciphertext_length() - HEADER_LENGTH,
            ),
        ensures
            self.ciphertext_layout_error(plaintext.ciphertext_length()) is None,
            ciphertext == plaintext,
    {
        self.lemma_canonical_body(plaintext.plaintext_length());
        let count = plaintext.segment_count() as int;
        assert(SEGMENT_OVERHEAD * count == 32 * count) by (nonlinear_arith)
            requires
                SEGMENT_OVERHEAD == 32,
        ;
    }

    /// Every plaintext that can be laid out has a ciphertext length that can
    /// be laid out, with as many segments.
    pub proof fn lemma_canonical_body(self, plaintext_length: u64)
        requires
            self.wf(),
            self.plaintext_layout_error(plaintext_length) is None,
        ensures
            ({
                let length = self.message_length(plaintext_length as int) as u64;
                &&& self.ciphertext_layout_error(length) is None
                &&& self.segments_for_body(length - HEADER_LENGTH) == self.segments_for_plaintext(
                    plaintext_length as int,
                )
            }),
    {
        let length = plaintext_length as int;
        let count = self.segments_for_plaintext(length);
        let payload = self.payload_length();
        let size = self.segment_length();
        let body = length + 32 * count;
        self.lemma_segments_for_plaintext(length);
        assert(SEGMENT_OVERHEAD * count == 32 * count) by (nonlinear_arith)
            requires
                SEGMENT_OVERHEAD == 32,
        ;
        assert((count - 1) * size == (count - 1) * payload + 32 * (count - 1)) by (nonlinear_arith)
            requires
                size == payload + 32,
        ;
        assert(count * payload == (count - 1) * payload + payload) by (nonlinear_arith);
        let remainder = body - 1 - (count - 1) * size;
        assert(0 <= remainder < size);
        assert(body - 1 == (count - 1) * size + remainder);
        lemma_fundamental_div_mod_converse(body - 1, size, count - 1, remainder);
    }

    /// A ciphertext length that can be laid out has the segment count of its
    /// plaintext length, unless its last segment is empty and not its only one.
    pub proof fn lemma_only_empty_last_segment_is_not_canonical(self, layout: MessageLayout)
        requires
            layout.wf(),
            layout.parameters() == self,
        ensures
            layout.segment_count() == self.segments_for_plaintext(layout.plaintext_length() as int)
                || (layout.segment_count() > 1 && layout.plaintext_size(
                layout.segment_count() - 1,
            ) == 0),
    {
        let count = layout.segment_count() as int;
        let payload = self.payload_length();
        let length = layout.plaintext_length() as int;
        layout.lemma_segments_tile(count - 1);
        if layout.plaintext_size(count - 1) > 0 {
            let remainder = length - 1 - (count - 1) * payload;
            assert(count * payload == (count - 1) * payload + payload) by (nonlinear_arith);
            lemma_fundamental_div_mod_converse(length - 1, payload, count - 1, remainder);
        } else if count == 1 {
            assert((count - 1) * payload == 0) by (nonlinear_arith)
                requires
                    count == 1,
            ;
        }
    }
}

/// Iterator over the segments in a [`MessageLayout`], from either end.
///
/// Obtain this with [`MessageLayout::segments`] or [`MessageLayout::into_iter`].
#[derive(Debug)]
pub struct Segments {
    layout: MessageLayout,
    start: u64,
    end: u64,
}

impl Clone for Segments {
    fn clone(&self) -> (copy: Self)
        ensures
            copy == *self,
    {
        proof {
            use_type_invariant(self);
        }
        Segments { layout: self.layout, start: self.start, end: self.end }
    }
}

impl Segments {
    pub closed spec fn spec_layout(self) -> MessageLayout {
        self.layout
    }

    /// The first position that has not been produced.
    pub closed spec fn first(self) -> int {
        self.start as int
    }

    /// The position after the last one that has not been produced.
    pub closed spec fn last(self) -> int {
        self.end as int
    }

    /// The positions to come are positions of the layout.
    #[verifier::type_invariant]
    pub open spec fn wf(self) -> bool {
        self.spec_layout().wf() && self.first() <= self.last()
            <= self.spec_layout().segment_count()
    }

    /// The outcome of producing the next segment.
    pub open spec fn produced(before: Self, after: Self, segment: Option<SegmentLayout>) -> bool {
        &&& after.spec_layout() == before.spec_layout()
        &&& after.last() == before.last()
        &&& match segment {
            Some(segment) => before.first() < before.last() && segment.describes(
                before.spec_layout(),
                before.first(),
            ) && after.first() == before.first() + 1,
            None => before.first() >= before.last() && after.first() == before.first(),
        }
    }

    /// The outcome of producing the last segment that is left.
    pub open spec fn produced_back(
        before: Self,
        after: Self,
        segment: Option<SegmentLayout>,
    ) -> bool {
        &&& after.spec_layout() == before.spec_layout()
        &&& after.first() == before.first()
        &&& match segment {
            Some(segment) => before.first() < before.last() && segment.describes(
                before.spec_layout(),
                before.last() - 1,
            ) && after.last() == before.last() - 1,
            None => before.first() >= before.last() && after.last() == before.last(),
        }
    }

    /// Every segment is produced once: from either end, in whatever turns, what
    /// is produced at the front has the positions from zero on, what is produced
    /// at the back has those from the last one down, and nothing more is
    /// produced exactly when as many have been as the message has.
    pub proof fn lemma_produces_all(
        states: Seq<Self>,
        backward: Seq<bool>,
        segments: Seq<Option<SegmentLayout>>,
        count: nat,
    )
        requires
            states.len() == segments.len() + 1,
            backward.len() == segments.len(),
            states[0].wf(),
            states[0].first() == 0,
            states[0].last() == states[0].spec_layout().segment_count(),
            forall|k: int|
                0 <= k < segments.len() ==> if backward[k] {
                    Self::produced_back(#[trigger] states[k], states[k + 1], segments[k])
                } else {
                    Self::produced(states[k], states[k + 1], segments[k])
                },
            count < segments.len(),
        ensures
            ({
                let total = states[0].spec_layout().segment_count() as int;
                let front = Self::taken(backward, segments, count, false);
                let back = Self::taken(backward, segments, count, true);
                &&& 0 <= front
                &&& 0 <= back
                &&& front + back <= total
                &&& segments[count as int] is None <==> front + back == total
                &&& segments[count as int] matches Some(segment) ==> segment.position()
                    == if backward[count as int] {
                    total - 1 - back
                } else {
                    front
                }
            }),
    {
        Self::lemma_taken(states, backward, segments, count);
        let k = count as int;
        assert(if backward[k] {
            Self::produced_back(states[k], states[k + 1], segments[k])
        } else {
            Self::produced(states[k], states[k + 1], segments[k])
        });
    }

    /// How many of the first `count` turns have produced a segment at one end.
    pub open spec fn taken(
        backward: Seq<bool>,
        segments: Seq<Option<SegmentLayout>>,
        count: nat,
        back: bool,
    ) -> int
        decreases count,
    {
        if count == 0 {
            0
        } else {
            Self::taken(backward, segments, (count - 1) as nat, back) + if segments[count - 1]
                is Some && backward[count - 1] == back {
                1int
            } else {
                0int
            }
        }
    }

    proof fn lemma_taken(
        states: Seq<Self>,
        backward: Seq<bool>,
        segments: Seq<Option<SegmentLayout>>,
        count: nat,
    )
        requires
            states.len() == segments.len() + 1,
            backward.len() == segments.len(),
            states[0].wf(),
            states[0].first() == 0,
            states[0].last() == states[0].spec_layout().segment_count(),
            forall|k: int|
                0 <= k < segments.len() ==> if backward[k] {
                    Self::produced_back(#[trigger] states[k], states[k + 1], segments[k])
                } else {
                    Self::produced(states[k], states[k + 1], segments[k])
                },
            count <= segments.len(),
        ensures
            states[count as int].spec_layout() == states[0].spec_layout(),
            states[count as int].first() == Self::taken(backward, segments, count, false),
            states[count as int].last() == states[0].last() - Self::taken(
                backward,
                segments,
                count,
                true,
            ),
            states[count as int].first() <= states[count as int].last(),
            0 <= states[count as int].first(),
            states[count as int].last() <= states[0].last(),
        decreases count,
    {
        if count > 0 {
            let k = count - 1;
            Self::lemma_taken(states, backward, segments, k as nat);
            assert(if backward[k] {
                Self::produced_back(states[k], states[k + 1], segments[k])
            } else {
                Self::produced(states[k], states[k + 1], segments[k])
            });
        }
    }

    /// Produces the next segment in position order.
    pub fn next(&mut self) -> (segment: Option<SegmentLayout>)
        ensures
            final(self).wf(),
            Self::produced(*old(self), *final(self), segment),
    {
        proof {
            use_type_invariant(&*self);
        }
        if self.start < self.end {
            let segment = self.layout.segment_at(self.start);
            self.start = self.start + 1;
            Some(segment)
        } else {
            None
        }
    }

    /// Produces the last segment that is left.
    pub fn next_back(&mut self) -> (segment: Option<SegmentLayout>)
        ensures
            final(self).wf(),
            Self::produced_back(*old(self), *final(self), segment),
    {
        proof {
            use_type_invariant(&*self);
        }
        if self.start < self.end {
            let segment = self.layout.segment_at(self.end - 1);
            self.end = self.end - 1;
            Some(segment)
        } else {
            None
        }
    }

    /// Returns how many segments are left.
    pub fn len(&self) -> (count: u64)
        ensures
            count == self.last() - self.first(),
    {
        proof {
            use_type_invariant(&*self);
        }
        self.end - self.start
    }

    /// Collects every segment that is left, in position order.
    pub fn collect(self) -> (segments: Vec<SegmentLayout>)
        ensures
            segments@.len() == self.last() - self.first(),
            forall|i: int|
                0 <= i < segments@.len() ==> (#[trigger] segments@[i]).describes(
                    self.spec_layout(),
                    self.first() + i,
                ),
    {
        proof {
            use_type_invariant(&self);
        }
        let mut segments: Vec<SegmentLayout> = Vec::new();
        let mut position: u64 = self.start;
        while position < self.end
            invariant
                self.wf(),
                self.start <= position <= self.end,
                segments@.len() == position - self.start,
                forall|i: int|
                    0 <= i < segments@.len() ==> (#[trigger] segments@[i]).describes(
                        self.spec_layout(),
                        self.first() + i,
                    ),
            decreases self.end - position,
        {
            segments.push(self.layout.segment_at(position));
            position += 1;
        }
        segments
    }
}

impl MessageLayout {
    /// Iterates over every segment in position order.
    ///
    /// See [`Self::segment_for_position`] when accessing an individual
    /// segment by position.
    pub fn segments(self) -> (segments: Segments)
        ensures
            segments.spec_layout() == self,
            segments.first() == 0,
            segments.last() == self.segment_count(),
    {
        proof {
            use_type_invariant(&self);
        }
        Segments { layout: self, start: 0, end: self.segment_count }
    }

    /// Iterates over every segment in position order.
    pub fn into_iter(self) -> (segments: Segments)
        ensures
            segments.spec_layout() == self,
            segments.first() == 0,
            segments.last() == self.segment_count(),
    {
        self.segments()
    }

    /// The segment that holds the plaintext byte at `offset`.
    pub open spec fn position_of(self, offset: int) -> int {
        offset / self.parameters().payload_length()
    }

    /// The segment that holds a plaintext byte is the one whose full piece would
    /// hold it.
    pub proof fn lemma_position_of_bounds(self, offset: int, position: int)
        requires
            self.wf(),
            0 <= offset,
        ensures
            self.position_of(offset) == position <==> position * (
            self.parameters().segment_length() - 32) <= offset < (position + 1) * (
            self.parameters().segment_length() - 32),
    {
        let payload = self.parameters().segment_length() - 32;
        let held = offset / payload;
        lemma_fundamental_div_mod(offset, payload);
        assert(payload * held == held * payload) by (nonlinear_arith);
        assert((held + 1) * payload == held * payload + payload) by (nonlinear_arith);
        assert((position + 1) * payload == position * payload + payload) by (nonlinear_arith);
        if position * payload <= offset < (position + 1) * payload {
            lemma_fundamental_div_mod_converse(
                offset,
                payload,
                position,
                offset - position * payload,
            );
        }
    }

    /// Every plaintext byte lies in the segment at its position.
    pub proof fn lemma_position_of(self, offset: int)
        requires
            self.wf(),
            0 <= offset < self.plaintext_length(),
        ensures
            0 <= self.position_of(offset) < self.segment_count(),
            self.plaintext_start(self.position_of(offset)) <= offset,
            offset < self.plaintext_start(self.position_of(offset)) + self.plaintext_size(
                self.position_of(offset),
            ),
    {
        let payload = self.parameters().payload_length();
        let position = self.position_of(offset);
        let count = self.segment_count() as int;
        lemma_fundamental_div_mod(offset, payload);
        assert(payload * position == position * payload) by (nonlinear_arith);
        assert(0 <= position) by (nonlinear_arith)
            requires
                position == offset / payload,
                0 <= offset,
                1 <= payload,
        ;
        if position >= count {
            assert(count * payload <= position * payload) by (nonlinear_arith)
                requires
                    count <= position,
                    0 <= payload,
            ;
        }
        self.lemma_segments_tile(position);
    }

    /// Returns the position of the segment that holds the plaintext byte at
    /// `offset`.
    pub(crate) fn position_for_plaintext_offset(self, offset: u64) -> (position: u64)
        ensures
            self.wf(),
            position == self.position_of(offset as int),
    {
        proof {
            use_type_invariant(&self);
        }
        offset / self.parameters.plaintext_segment_length() as u64
    }
}

/// Segment framing information decoded from a FLOE segment prefix.
///
/// Construct this with [`Self::decode`]. A streaming
/// decryptor can use [`Self::ciphertext_length`] to read the remainder of the
/// segment and [`Self::plaintext_length`] to size an output buffer.
#[derive(Clone, Copy, Debug, PartialEq, Eq, Structural)]
pub struct SegmentFraming {
    ciphertext_length: usize,
    plaintext_length: usize,
    kind: SegmentKind,
}

/// The number in the prefix of a segment: all ones unless the segment is
/// final, and else the length of the segment.
pub open spec fn prefix_value(kind: SegmentKind, ciphertext_length: int) -> u32 {
    if kind is Final {
        ciphertext_length as u32
    } else {
        u32::MAX
    }
}

impl SegmentFraming {
    pub closed spec fn spec_ciphertext_length(self) -> usize {
        self.ciphertext_length
    }

    pub closed spec fn spec_plaintext_length(self) -> usize {
        self.plaintext_length
    }

    pub closed spec fn spec_kind(self) -> SegmentKind {
        self.kind
    }

    /// The segment is its plaintext and the framing overhead.
    #[verifier::type_invariant]
    pub open spec fn wf(self) -> bool {
        self.ciphertext_length() == self.plaintext_length() + SEGMENT_OVERHEAD
    }

    /// The error, if any, of the prefix `encoded`.
    pub open spec fn error(parameters: Parameters, encoded: u32) -> Option<Error> {
        if encoded == u32::MAX {
            None
        } else {
            parameters.segment_length_error(encoded as int)
        }
    }

    /// The kind that the prefix `encoded` declares.
    pub open spec fn declared_kind(encoded: u32) -> SegmentKind {
        if encoded == u32::MAX {
            SegmentKind::NonFinal
        } else {
            SegmentKind::Final
        }
    }

    /// The segment length that the prefix `encoded` declares.
    pub open spec fn declared_length(parameters: Parameters, encoded: u32) -> int {
        if encoded == u32::MAX {
            parameters.segment_length()
        } else {
            encoded as int
        }
    }

    /// The framing that the prefix `encoded` declares.
    pub open spec fn declared_by(self, parameters: Parameters, encoded: u32) -> bool {
        &&& self.wf()
        &&& Self::error(parameters, encoded) is None
        &&& self.kind() == Self::declared_kind(encoded)
        &&& self.ciphertext_length() == Self::declared_length(parameters, encoded)
    }

    /// The prefix of a segment declares the segment's kind and length: no
    /// final segment is taken for a non-final one, nor the other way round.
    pub proof fn lemma_prefix_declares_segment(
        parameters: Parameters,
        kind: SegmentKind,
        ciphertext_length: int,
    )
        requires
            parameters.wf(),
            SEGMENT_OVERHEAD <= ciphertext_length <= parameters.segment_length(),
            kind is NonFinal ==> ciphertext_length == parameters.segment_length(),
        ensures
            ({
                let encoded = from_be32(be32(prefix_value(kind, ciphertext_length)));
                &&& Self::error(parameters, encoded) is None
                &&& Self::declared_kind(encoded) == kind
                &&& Self::declared_length(parameters, encoded) == ciphertext_length
            }),
    {
        lemma_be32_round_trip(prefix_value(kind, ciphertext_length));
    }

    /// Decodes the **unauthenticated** framing declared by a segment prefix.
    ///
    /// This **does not authenticate** the prefix or the rest of the segment.
    /// You must successfully decrypt the segment before trusting it.
    ///
    /// # Errors
    ///
    /// Returns [`Error::InvalidCiphertextLength`] when a final prefix encodes
    /// a length outside the supported range.
    pub fn decode(parameters: Parameters, prefix: [u8; SEGMENT_PREFIX_LENGTH]) -> (result: Result<
        Self,
        Error,
    >)
        ensures
            match result {
                Ok(framing) => framing.declared_by(parameters, from_be32(prefix@)),
                Err(error) => Self::error(parameters, from_be32(prefix@)) == Some(error),
            },
    {
        let encoded = decode_be32(prefix);
        if encoded == u32::MAX {
            let ciphertext_length = parameters.ciphertext_segment_length();
            Ok(
                Self {
                    ciphertext_length,
                    plaintext_length: parameters.plaintext_segment_length(),
                    kind: SegmentKind::NonFinal,
                },
            )
        } else {
            let ciphertext_length = encoded as usize;
            parameters.validate_ciphertext_segment_length(ciphertext_length)?;
            Ok(
                Self {
                    ciphertext_length,
                    plaintext_length: ciphertext_length - SEGMENT_OVERHEAD,
                    kind: SegmentKind::Final,
                },
            )
        }
    }

    /// Returns the complete ciphertext segment length.
    #[verifier::when_used_as_spec(spec_ciphertext_length)]
    pub fn ciphertext_length(self) -> (length: usize)
        ensures
            length == self.ciphertext_length(),
    {
        self.ciphertext_length
    }

    /// Returns the segment's plaintext payload length.
    #[verifier::when_used_as_spec(spec_plaintext_length)]
    pub fn plaintext_length(self) -> (length: usize)
        ensures
            length == self.plaintext_length(),
    {
        self.plaintext_length
    }

    /// Returns whether the prefix identifies a final segment.
    pub fn is_final(self) -> (result: bool)
        ensures
            result == (self.kind() is Final),
    {
        self.kind.is_final()
    }

    /// Returns whether the prefix identifies an internal or final segment.
    #[verifier::when_used_as_spec(spec_kind)]
    pub fn kind(self) -> (kind: SegmentKind)
        ensures
            kind == self.kind(),
    {
        self.kind
    }
}

} // verus!
