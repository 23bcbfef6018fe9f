//! What damage to a message comes to: with which error a message of another
//! key, another header, another tag, or another length is rejected.

use crate::counter::SegmentCounter;
use crate::error::{Error, LengthRequirement};
use crate::layout::SegmentFraming;
use crate::message::{
    body_decrypted, body_error, ciphertext_piece, kind_at, lemma_first_segment_of_body,
    lemma_body_stops, lemma_opens_with_encrypted, lemma_opens_with_nothing,
    lemma_piece_authenticates, lemma_piece_bounds,
    message_decrypted, message_decrypted_with, message_encrypted, opens_with, pieces_encrypted,
    plaintext_piece, segment_length_at,
};
use crate::model::{header, header_iv, header_tag, plaintext_error, session, Session};
use crate::online::{prefix_error, segment_kind, segment_prefix_value};
use crate::parameters::{
    Parameters, SegmentKind, AEAD_MAX_SEGMENTS, AEAD_TAG_LENGTH, ENCODED_PARAMETERS_LENGTH,
    FLOE_IV_LENGTH, HEADER_LENGTH, SEGMENT_OVERHEAD, SEGMENT_PREFIX_LENGTH,
};
use vstd::arithmetic::div_mod::{
    lemma_div_minus_one, lemma_fundamental_div_mod_converse, lemma_mod_sub_multiples_vanish,
    lemma_small_mod,
};
use vstd::prelude::*;

verus! {

/// A header with an altered tag is rejected: where parameters and IV are those
/// of a message, and the header is not, the tag is invalid.
pub proof fn lemma_altered_header_tag_is_rejected(
    key: Seq<u8>,
    aad: Seq<u8>,
    parameters: Parameters,
    iv: Seq<u8>,
    ciphertext: Seq<u8>,
    altered: Seq<u8>,
)
    requires
        parameters.wf(),
        iv.len() == FLOE_IV_LENGTH,
        HEADER_LENGTH <= ciphertext.len(),
        HEADER_LENGTH <= altered.len(),
        ciphertext.take(HEADER_LENGTH as int) == header(key, parameters, iv, aad),
        altered.take(ENCODED_PARAMETERS_LENGTH + FLOE_IV_LENGTH) == ciphertext.take(
            ENCODED_PARAMETERS_LENGTH + FLOE_IV_LENGTH,
        ),
        altered.take(HEADER_LENGTH as int) != ciphertext.take(HEADER_LENGTH as int),
    ensures
        message_decrypted(key, aad, altered) == Err::<Seq<u8>, Error>(Error::InvalidHeaderTag),
        message_decrypted_with(key, aad, parameters, altered) == Err::<Seq<u8>, Error>(
            Error::InvalidHeaderTag,
        ),
{
    let bytes = ciphertext.take(HEADER_LENGTH as int);
    let other = altered.take(HEADER_LENGTH as int);
    let fields = ciphertext.take(ENCODED_PARAMETERS_LENGTH + FLOE_IV_LENGTH);
    assert(fields =~= parameters.encoding() + iv) by {
        assert(fields =~= bytes.take(ENCODED_PARAMETERS_LENGTH + FLOE_IV_LENGTH));
    }
    assert(fields.take(ENCODED_PARAMETERS_LENGTH as int) =~= parameters.encoding());
    assert(other.take(ENCODED_PARAMETERS_LENGTH as int) =~= fields.take(
        ENCODED_PARAMETERS_LENGTH as int,
    ));
    assert(altered.take(ENCODED_PARAMETERS_LENGTH as int) =~= fields.take(
        ENCODED_PARAMETERS_LENGTH as int,
    ));
    assert(header_iv(other) =~= fields.skip(ENCODED_PARAMETERS_LENGTH as int));
    assert(fields.skip(ENCODED_PARAMETERS_LENGTH as int) =~= iv);
    parameters.lemma_encoding_round_trip();
}

/// A message is rejected under another key or other associated data: where
/// these give another header tag, the tag of the message is invalid.
pub proof fn lemma_other_key_or_aad_is_rejected(
    key: Seq<u8>,
    aad: Seq<u8>,
    other_key: Seq<u8>,
    other_aad: Seq<u8>,
    parameters: Parameters,
    iv: Seq<u8>,
    ciphertext: Seq<u8>,
)
    requires
        parameters.wf(),
        iv.len() == FLOE_IV_LENGTH,
        HEADER_LENGTH <= ciphertext.len(),
        ciphertext.take(HEADER_LENGTH as int) == header(key, parameters, iv, aad),
        header_tag(other_key, parameters, iv, other_aad) != header_tag(key, parameters, iv, aad),
    ensures
        message_decrypted(other_key, other_aad, ciphertext) == Err::<Seq<u8>, Error>(
            Error::InvalidHeaderTag,
        ),
        message_decrypted_with(other_key, other_aad, parameters, ciphertext) == Err::<
            Seq<u8>,
            Error,
        >(Error::InvalidHeaderTag),
{
    let bytes = ciphertext.take(HEADER_LENGTH as int);
    let other = header(other_key, parameters, iv, other_aad);
    let start = ENCODED_PARAMETERS_LENGTH + FLOE_IV_LENGTH;
    assert(bytes.take(ENCODED_PARAMETERS_LENGTH as int) =~= parameters.encoding());
    assert(ciphertext.take(ENCODED_PARAMETERS_LENGTH as int) =~= bytes.take(
        ENCODED_PARAMETERS_LENGTH as int,
    ));
    assert(header_iv(bytes) =~= iv);
    assert(bytes.skip(start) =~= header_tag(key, parameters, iv, aad));
    assert(other.skip(start) =~= header_tag(other_key, parameters, iv, other_aad));
    parameters.lemma_encoding_round_trip();
}

/// The segments of a message before one of its segments give the plaintext
/// before the piece of that one.
pub proof fn lemma_segments_before(
    session: Session,
    plaintext: Seq<u8>,
    ciphertext: Seq<u8>,
    count: int,
)
    requires
        session.parameters.wf(),
        session.parameters.segments_for_plaintext(plaintext.len() as int) <= AEAD_MAX_SEGMENTS,
        ciphertext.len() == session.parameters.message_length(plaintext.len() as int),
        pieces_encrypted(
            session,
            plaintext,
            ciphertext,
            session.parameters.segments_for_plaintext(plaintext.len() as int),
        ),
        0 <= count < session.parameters.segments_for_plaintext(plaintext.len() as int),
    ensures
        0 <= count * session.parameters.payload_length() <= plaintext.len(),
        0 <= count * session.parameters.segment_length() <= ciphertext.len() - HEADER_LENGTH,
        opens_with(
            session,
            ciphertext.subrange(
                HEADER_LENGTH as int,
                HEADER_LENGTH + count * session.parameters.segment_length(),
            ),
            plaintext.take(count * session.parameters.payload_length()),
            SegmentCounter { next: count as u64, closed: false },
        ),
    decreases count,
{
    let parameters = session.parameters;
    let length = plaintext.len() as int;
    let size = parameters.segment_length();
    let payload = parameters.payload_length();
    lemma_piece_bounds(parameters, length, count);
    let total = parameters.segments_for_plaintext(length);
    assert(32 * count <= SEGMENT_OVERHEAD * total) by (nonlinear_arith)
        requires
            count < total,
            SEGMENT_OVERHEAD == 32,
    ;
    if count == 0 {
        assert(count * size == 0 && count * payload == 0) by (nonlinear_arith)
            requires
                count == 0,
        ;
        assert(ciphertext.subrange(HEADER_LENGTH as int, HEADER_LENGTH as int) =~= Seq::empty());
        assert(plaintext.take(0) =~= Seq::empty());
        lemma_opens_with_nothing(session);
    } else {
        let position = count - 1;
        lemma_segments_before(session, plaintext, ciphertext, position);
        lemma_piece_bounds(parameters, length, position);
        let counter = SegmentCounter { next: position as u64, closed: false };
        let before = ciphertext.subrange(HEADER_LENGTH as int, HEADER_LENGTH + position * size);
        let piece = plaintext_piece(parameters, plaintext, position);
        let segment = ciphertext_piece(parameters, plaintext, ciphertext, position);
        assert(kind_at(parameters, length, position) is NonFinal);
        lemma_opens_with_encrypted(
            session,
            before,
            plaintext.take(position * payload),
            counter,
            SegmentKind::NonFinal,
            segment,
            piece,
        );
        assert(before + segment =~= ciphertext.subrange(
            HEADER_LENGTH as int,
            HEADER_LENGTH + count * size,
        ));
        assert(plaintext.take(position * payload) + piece =~= plaintext.take(count * payload));
    }
}

/// Damage is reported as what it is: where a body is that of a message up to
/// some segment, and what stands there instead is rejected with an error, the
/// body is rejected with that error.
pub proof fn lemma_damage_is_reported(
    session: Session,
    plaintext: Seq<u8>,
    ciphertext: Seq<u8>,
    position: int,
    rest: Seq<u8>,
    error: Error,
)
    requires
        session.parameters.wf(),
        session.parameters.segments_for_plaintext(plaintext.len() as int) <= AEAD_MAX_SEGMENTS,
        ciphertext.len() == session.parameters.message_length(plaintext.len() as int),
        pieces_encrypted(
            session,
            plaintext,
            ciphertext,
            session.parameters.segments_for_plaintext(plaintext.len() as int),
        ),
        0 <= position < session.parameters.segments_for_plaintext(plaintext.len() as int),
        body_decrypted(session, SegmentCounter { next: position as u64, closed: false }, rest)
            == Err::<Seq<u8>, Error>(error),
    ensures
        body_decrypted(
            session,
            SegmentCounter::start(),
            ciphertext.subrange(
                HEADER_LENGTH as int,
                HEADER_LENGTH + position * session.parameters.segment_length(),
            ) + rest,
        ) == Err::<Seq<u8>, Error>(error),
{
    lemma_segments_before(session, plaintext, ciphertext, position);
    reveal(opens_with);
}

/// A message whose last bytes, the tag of its final segment, are altered is
/// rejected: authentication fails.
pub proof fn lemma_altered_final_tag_is_rejected(
    key: Seq<u8>,
    aad: Seq<u8>,
    parameters: Parameters,
    iv: Seq<u8>,
    plaintext: Seq<u8>,
    ciphertext: Seq<u8>,
    altered: Seq<u8>,
)
    requires
        parameters.wf(),
        parameters.segments_for_plaintext(plaintext.len() as int) <= AEAD_MAX_SEGMENTS,
        message_encrypted(
            session(key, parameters, iv, aad),
            header(key, parameters, iv, aad),
            plaintext,
            ciphertext,
        ),
        iv.len() == FLOE_IV_LENGTH,
        altered.len() == ciphertext.len(),
        altered.take(ciphertext.len() - AEAD_TAG_LENGTH) == ciphertext.take(
            ciphertext.len() - AEAD_TAG_LENGTH,
        ),
        altered != ciphertext,
    ensures
        message_decrypted(key, aad, altered) == Err::<Seq<u8>, Error>(
            Error::AuthenticationFailed,
        ),
{
    let session = session(key, parameters, iv, aad);
    let length = plaintext.len() as int;
    let last = parameters.segments_for_plaintext(length) - 1;
    let start = HEADER_LENGTH + last * parameters.segment_length();
    let counter = SegmentCounter { next: last as u64, closed: false };
    let piece = plaintext_piece(parameters, plaintext, last);
    let segment = ciphertext_piece(parameters, plaintext, ciphertext, last);
    let other = altered.skip(start);
    parameters.lemma_segments_for_plaintext(length);
    lemma_piece_bounds(parameters, length, last);
    assert(SEGMENT_OVERHEAD * (last + 1) == 32 * last + SEGMENT_OVERHEAD) by (nonlinear_arith)
        requires
            SEGMENT_OVERHEAD == 32,
    ;
    assert(start + SEGMENT_OVERHEAD + piece.len() == ciphertext.len());
    assert(segment =~= ciphertext.skip(start));
    let kept = ciphertext.len() - AEAD_TAG_LENGTH;
    assert(session.encrypts(last as u64, SegmentKind::Final, piece, segment));
    assert(altered =~= altered.take(start) + other);
    assert(ciphertext =~= ciphertext.take(start) + segment);
    assert(altered.take(start) =~= altered.take(kept).take(start));
    assert(ciphertext.take(start) =~= ciphertext.take(kept).take(start));
    assert(other.take(segment.len() - AEAD_TAG_LENGTH) =~= altered.take(kept).skip(start));
    assert(segment.take(segment.len() - AEAD_TAG_LENGTH) =~= ciphertext.take(kept).skip(start));
    session.lemma_altered_tag_is_rejected(last as u64, SegmentKind::Final, piece, segment, other);
    lemma_final_segment_fails(session, counter, other);
    lemma_damage_is_reported(
        session,
        plaintext,
        ciphertext,
        last,
        other,
        Error::AuthenticationFailed,
    );
    assert(altered.skip(HEADER_LENGTH as int) =~= ciphertext.subrange(
        HEADER_LENGTH as int,
        start,
    ) + other);
    assert(altered.take(HEADER_LENGTH as int) =~= altered.take(start).take(HEADER_LENGTH as int));
    assert(ciphertext.take(HEADER_LENGTH as int) =~= ciphertext.take(start).take(
        HEADER_LENGTH as int,
    ));
    crate::message::lemma_body_completes_message(key, aad, parameters, iv, altered);
}

/// A body of one final segment that is not authentic.
proof fn lemma_final_segment_fails(session: Session, counter: SegmentCounter, segment: Seq<u8>)
    requires
        session.parameters.wf(),
        !counter.closed,
        counter.next < AEAD_MAX_SEGMENTS,
        crate::model::framing_error(session.parameters, SegmentKind::Final, segment) is None,
        session.authenticated(counter.next, SegmentKind::Final, segment) == Err::<Seq<u8>, Error>(
            Error::AuthenticationFailed,
        ),
    ensures
        body_decrypted(session, counter, segment) == Err::<Seq<u8>, Error>(
            Error::AuthenticationFailed,
        ),
{
    lemma_body_stops(session, counter, segment);
    assert(segment.take(segment.len() as int) =~= segment);
}

/// With which error the first `length` bytes of a body of `total` bytes that
/// decrypts are rejected: nothing of a segment is there, not even its prefix is
/// there, or fewer bytes are there than its prefix declares.
pub open spec fn cut_error(parameters: Parameters, total: int, length: int) -> Error {
    let actual = length % parameters.segment_length();
    let whole = segment_length_at_cut(parameters, total, length);
    if actual == 0 {
        Error::Truncated
    } else if actual < SEGMENT_PREFIX_LENGTH {
        Error::InvalidCiphertextLength {
            actual: actual as usize,
            required: LengthRequirement::Between {
                minimum: SEGMENT_PREFIX_LENGTH,
                maximum: parameters.segment_length() as usize,
            },
        }
    } else {
        Error::InvalidCiphertextLength {
            actual: actual as usize,
            required: LengthRequirement::AtLeast(whole as usize),
        }
    }
}

/// The length of the segment that a body of `total` bytes has where it is cut.
pub open spec fn segment_length_at_cut(parameters: Parameters, total: int, length: int) -> int {
    let left = total - (length - length % parameters.segment_length());
    if left < parameters.segment_length() {
        left
    } else {
        parameters.segment_length()
    }
}

/// A body that is cut short is rejected with the error of where it is cut.
pub proof fn lemma_cut_body_error(session: Session, next: u64, body: Seq<u8>, length: int)
    requires
        session.parameters.wf(),
        body_decrypted(session, SegmentCounter { next, closed: false }, body) is Ok,
        0 <= length < body.len(),
    ensures
        body_decrypted(session, SegmentCounter { next, closed: false }, body.take(length)) == Err::<
            Seq<u8>,
            Error,
        >(cut_error(session.parameters, body.len() as int, length)),
    decreases length,
{
    let counter = SegmentCounter { next, closed: false };
    let size = session.parameters.segment_length();
    let plaintext = body_decrypted(session, counter, body)->Ok_0;
    let shorter = body.take(length);
    lemma_first_segment_of_body(session, next, body, plaintext);
    if length < size {
        lemma_small_mod(length as nat, size as nat);
        lemma_body_stops(session, counter, shorter);
        if length >= SEGMENT_PREFIX_LENGTH {
            assert(shorter.take(SEGMENT_PREFIX_LENGTH as int) =~= body.take(
                SEGMENT_PREFIX_LENGTH as int,
            ));
            assert(body_error(session.parameters, body) is None) by {
                lemma_body_stops(session, counter, body);
            }
        }
    } else {
        assert(segment_kind(body) is NonFinal);
        lemma_cut_body_error(session, (next + 1) as u64, body.skip(size), length - size);
        lemma_mod_sub_multiples_vanish(length, size);
        assert(length - size == -size + length);
        assert(cut_error(session.parameters, body.len() as int, length) == cut_error(
            session.parameters,
            body.len() - size,
            length - size,
        ));
        reveal(body_decrypted);
        assert(shorter.take(SEGMENT_PREFIX_LENGTH as int) =~= body.take(
            SEGMENT_PREFIX_LENGTH as int,
        ));
        assert(shorter.take(size) =~= body.take(size));
        assert(shorter.skip(size) =~= body.skip(size).take(length - size));
    }
}

/// A body that something follows is rejected with the lengths of its last
/// segment and of what is found in its place.
pub proof fn lemma_extended_body_error(
    session: Session,
    next: u64,
    body: Seq<u8>,
    more: Seq<u8>,
)
    requires
        session.parameters.wf(),
        body_decrypted(session, SegmentCounter { next, closed: false }, body) is Ok,
        more.len() > 0,
    ensures
        ({
            let last = session.parameters.last_segment_length(body.len() as int);
            body_decrypted(session, SegmentCounter { next, closed: false }, body + more) == Err::<
                Seq<u8>,
                Error,
            >(
                Error::InvalidCiphertextLength {
                    actual: (last + more.len()) as usize,
                    required: LengthRequirement::Exactly(last as usize),
                },
            )
        }),
    decreases body.len(),
{
    let counter = SegmentCounter { next, closed: false };
    let size = session.parameters.segment_length();
    let total = body.len() as int;
    let plaintext = body_decrypted(session, counter, body)->Ok_0;
    let longer = body + more;
    lemma_first_segment_of_body(session, next, body, plaintext);
    assert(longer.take(SEGMENT_PREFIX_LENGTH as int) =~= body.take(SEGMENT_PREFIX_LENGTH as int));
    if segment_kind(body) is NonFinal {
        lemma_extended_body_error(session, (next + 1) as u64, body.skip(size), more);
        lemma_div_minus_one(total - 1, size);
        assert(total - size - 1 == -size + (total - 1));
        let count = session.parameters.segments_for_body(total);
        assert(session.parameters.segments_for_body(total - size) == count - 1);
        assert((count - 1) * size == (count - 2) * size + size) by (nonlinear_arith);
        reveal(body_decrypted);
        assert(longer.take(size) =~= body.take(size));
        assert(longer.skip(size) =~= body.skip(size) + more);
    } else {
        lemma_fundamental_div_mod_converse(total - 1, size, 0, total - 1);
        lemma_body_stops(session, counter, longer);
        lemma_body_stops(session, counter, body);
    }
}

/// What a complete message gives when its body has another length: with
/// something appended, one byte short, and empty.
pub proof fn lemma_body_of_another_length(
    session: Session,
    plaintext: Seq<u8>,
    body: Seq<u8>,
    more: Seq<u8>,
)
    requires
        session.parameters.wf(),
        body_decrypted(session, SegmentCounter::start(), body) == Ok::<Seq<u8>, Error>(plaintext),
        more.len() > 0,
    ensures
        ({
            let last = session.parameters.last_segment_length(body.len() as int);
            &&& SEGMENT_OVERHEAD <= last <= session.parameters.segment_length()
            &&& body_decrypted(session, SegmentCounter::start(), body + more) == Err::<
                Seq<u8>,
                Error,
            >(
                Error::InvalidCiphertextLength {
                    actual: (last + more.len()) as usize,
                    required: LengthRequirement::Exactly(last as usize),
                },
            )
            &&& body_decrypted(session, SegmentCounter::start(), body.drop_last()) == Err::<
                Seq<u8>,
                Error,
            >(
                Error::InvalidCiphertextLength {
                    actual: (last - 1) as usize,
                    required: LengthRequirement::AtLeast(last as usize),
                },
            )
            &&& body_decrypted(session, SegmentCounter::start(), Seq::empty()) == Err::<
                Seq<u8>,
                Error,
            >(Error::Truncated)
        }),
{
    let size = session.parameters.segment_length();
    let total = body.len() as int;
    let count = session.parameters.segments_for_body(total);
    let last = session.parameters.last_segment_length(total);
    lemma_body_stops(session, SegmentCounter::start(), Seq::empty());
    lemma_first_segment_of_body(session, 0, body, plaintext);
    session.parameters.lemma_segments_for_body(total);
    crate::message::lemma_segment_of_body(session, 0, body, plaintext, count - 1);
    assert(segment_length_at(session.parameters, body, (count - 1) * size) == last);
    lemma_extended_body_error(session, 0, body, more);
    lemma_cut_body_error(session, 0, body, total - 1);
    lemma_fundamental_div_mod_converse(total - 1, size, count - 1, last - 1);
    assert(body.take(total - 1) =~= body.drop_last());
}

/// The segment at the start of `rest` is not one that the message accepts at
/// `position`: it is not all there, its prefix is invalid, or it is not
/// authentic.
pub open spec fn segment_rejected(session: Session, position: u64, rest: Seq<u8>) -> bool {
    let counter = SegmentCounter { next: position, closed: false };
    let length = SegmentFraming::declared_length(session.parameters, segment_prefix_value(rest));
    ||| prefix_error(session.parameters, rest) is Some
    ||| rest.len() < length
    ||| counter.error(segment_kind(rest)) is Some
    ||| session.authenticated(position, segment_kind(rest), rest.take(length)) is Err
}

/// A segment that is cut short is rejected.
pub proof fn lemma_cut_segment_is_rejected(
    session: Session,
    position: u64,
    body: Seq<u8>,
    length: int,
)
    requires
        session.parameters.wf(),
        body_decrypted(session, SegmentCounter { next: position, closed: false }, body) is Ok,
        0 <= length < segment_length_at(session.parameters, body, 0),
    ensures
        segment_rejected(session, position, body.take(length)),
{
    let counter = SegmentCounter { next: position, closed: false };
    let plaintext = body_decrypted(session, counter, body)->Ok_0;
    lemma_first_segment_of_body(session, position, body, plaintext);
    lemma_body_stops(session, counter, body);
    if length >= SEGMENT_PREFIX_LENGTH {
        assert(body.take(length).take(SEGMENT_PREFIX_LENGTH as int) =~= body.take(
            SEGMENT_PREFIX_LENGTH as int,
        ));
    }
}

/// A segment with an altered tag is rejected, whatever follows it.
pub proof fn lemma_segment_with_altered_tag_is_rejected(
    session: Session,
    position: u64,
    kind: SegmentKind,
    piece: Seq<u8>,
    segment: Seq<u8>,
    altered: Seq<u8>,
    more: Seq<u8>,
)
    requires
        session.parameters.wf(),
        position < AEAD_MAX_SEGMENTS,
        plaintext_error(session.parameters, kind, piece.len() as int) is None,
        session.encrypts(position, kind, piece, segment),
        altered.len() == segment.len(),
        altered.take(segment.len() - AEAD_TAG_LENGTH) == segment.take(
            segment.len() - AEAD_TAG_LENGTH,
        ),
        altered != segment,
    ensures
        segment_rejected(session, position, altered + more),
{
    session.lemma_altered_tag_is_rejected(position, kind, piece, segment, altered);
    lemma_piece_authenticates(session, position, kind, piece, segment);
    let kept = segment.len() - AEAD_TAG_LENGTH;
    assert((altered + more).take(SEGMENT_PREFIX_LENGTH as int) =~= altered.take(kept).take(
        SEGMENT_PREFIX_LENGTH as int,
    ));
    assert(segment.take(SEGMENT_PREFIX_LENGTH as int) =~= segment.take(kept).take(
        SEGMENT_PREFIX_LENGTH as int,
    ));
    assert((altered + more).take(altered.len() as int) =~= altered);
}

} // verus!
