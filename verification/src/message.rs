use crate::bytes::range_mut;
use crate::counter::SegmentCounter;
use crate::error::{Error, LengthRequirement};
use crate::key::Key;
use crate::layout::{prefix_value, MessageLayout, SegmentFraming};
use crate::model::{
    header, header_error, header_iv, plaintext_error, segment_aad, segment_nonce, session, Session,
};
use crate::online::{
    decode_framing, prefix_error, segment_kind, segment_prefix_value, Decryptor, Encryptor,
};
use crate::parameters::{
    Parameters, SegmentKind, AEAD_IV_LENGTH, AEAD_MAX_SEGMENTS, ENCODED_PARAMETERS_LENGTH, FLOE_IV_LENGTH,
    HEADER_LENGTH, SEGMENT_OVERHEAD, SEGMENT_PAYLOAD_OFFSET, SEGMENT_PREFIX_LENGTH,
};
use crate::primitives::lemma_opened_length;
use crate::wire::split_header;
use vstd::prelude::*;

verus! {

/// The kind of the segment at `position` of a message with `length` plaintext
/// bytes.
pub open spec fn kind_at(parameters: Parameters, length: int, position: int) -> SegmentKind {
    if position + 1 == parameters.segments_for_plaintext(length) {
        SegmentKind::Final
    } else {
        SegmentKind::NonFinal
    }
}

/// The plaintext of the segment at `position`.
pub open spec fn plaintext_piece(
    parameters: Parameters,
    plaintext: Seq<u8>,
    position: int,
) -> Seq<u8> {
    let start = position * parameters.payload_length();
    if kind_at(parameters, plaintext.len() as int, position) is Final {
        plaintext.skip(start)
    } else {
        plaintext.subrange(start, start + parameters.payload_length())
    }
}

/// The segment at `position` of a message that encrypts `plaintext`.
pub open spec fn ciphertext_piece(
    parameters: Parameters,
    plaintext: Seq<u8>,
    ciphertext: Seq<u8>,
    position: int,
) -> Seq<u8> {
    let start = HEADER_LENGTH + position * parameters.segment_length();
    ciphertext.subrange(
        start,
        start + SEGMENT_OVERHEAD + plaintext_piece(parameters, plaintext, position).len(),
    )
}

/// The first `count` segments of `ciphertext` encrypt their pieces of
/// `plaintext`.
pub open spec fn pieces_encrypted(
    session: Session,
    plaintext: Seq<u8>,
    ciphertext: Seq<u8>,
    count: int,
) -> bool {
    forall|position: int|
        0 <= position < count ==> session.encrypts(
            position as u64,
            kind_at(session.parameters, plaintext.len() as int, position),
            plaintext_piece(session.parameters, plaintext, position),
            #[trigger] ciphertext_piece(session.parameters, plaintext, ciphertext, position),
        )
}

/// `ciphertext` is a header followed by the segments that encrypt `plaintext`.
pub open spec fn message_encrypted(
    session: Session,
    header: Seq<u8>,
    plaintext: Seq<u8>,
    ciphertext: Seq<u8>,
) -> bool {
    let length = plaintext.len() as int;
    &&& ciphertext.len() == session.parameters.message_length(length)
    &&& ciphertext.take(HEADER_LENGTH as int) == header
    &&& pieces_encrypted(
        session,
        plaintext,
        ciphertext,
        session.parameters.segments_for_plaintext(length),
    )
}

/// The error, if any, of the segment that a message's remaining body starts
/// with.
pub open spec fn body_error(parameters: Parameters, body: Seq<u8>) -> Option<Error> {
    let length = SegmentFraming::declared_length(parameters, segment_prefix_value(body));
    if prefix_error(parameters, body) is Some {
        prefix_error(parameters, body)
    } else if body.len() < length {
        Some(
            Error::InvalidCiphertextLength {
                actual: body.len() as usize,
                required: LengthRequirement::AtLeast(length as usize),
            },
        )
    } else if segment_kind(body) is Final && length != body.len() {
        Some(
            Error::InvalidCiphertextLength {
                actual: body.len() as usize,
                required: LengthRequirement::Exactly(length as usize),
            },
        )
    } else {
        None
    }
}

/// What decrypting the remaining body of a message gives.
#[verifier::opaque]
pub open spec fn body_decrypted(
    session: Session,
    counter: SegmentCounter,
    body: Seq<u8>,
) -> Result<Seq<u8>, Error>
    decreases body.len(),
    when session.parameters.wf()
{
    let kind = segment_kind(body);
    let length = SegmentFraming::declared_length(session.parameters, segment_prefix_value(body));
    if body.len() == 0 {
        if counter.closed {
            Ok(Seq::empty())
        } else {
            Err(Error::Truncated)
        }
    } else if body_error(session.parameters, body) is Some {
        Err(body_error(session.parameters, body)->0)
    } else if counter.error(kind) is Some {
        Err(counter.error(kind)->0)
    } else {
        match session.authenticated(counter.next, kind, body.take(length)) {
            Err(error) => Err(error),
            Ok(plaintext) => after(
                plaintext,
                body_decrypted(session, counter.advanced(kind), body.skip(length)),
            ),
        }
    }
}

/// `plaintext`, followed by what the rest of a message gives.
pub open spec fn after(plaintext: Seq<u8>, rest: Result<Seq<u8>, Error>) -> Result<
    Seq<u8>,
    Error,
> {
    match rest {
        Ok(more) => Ok(plaintext + more),
        Err(error) => Err(error),
    }
}

/// What decrypting a complete message with `parameters` gives.
pub open spec fn message_decrypted_with(
    key: Seq<u8>,
    aad: Seq<u8>,
    parameters: Parameters,
    ciphertext: Seq<u8>,
) -> Result<Seq<u8>, Error> {
    let bytes = ciphertext.take(HEADER_LENGTH as int);
    match header_error(key, parameters, aad, bytes) {
        Some(error) => Err(error),
        None => body_decrypted(
            session(key, parameters, header_iv(bytes), aad),
            SegmentCounter::start(),
            ciphertext.skip(HEADER_LENGTH as int),
        ),
    }
}

/// What decrypting a complete message gives. It does not depend on the
/// provider.
pub open spec fn message_decrypted(key: Seq<u8>, aad: Seq<u8>, ciphertext: Seq<u8>) -> Result<
    Seq<u8>,
    Error,
> {
    match Parameters::decoding(ciphertext.take(ENCODED_PARAMETERS_LENGTH as int)) {
        None => Err(Error::InvalidHeaderParameters),
        Some(parameters) => message_decrypted_with(key, aad, parameters, ciphertext),
    }
}

pub(crate) proof fn lemma_piece_bounds(parameters: Parameters, length: int, position: int)
    requires
        parameters.wf(),
        0 <= length,
        0 <= position < parameters.segments_for_plaintext(length),
    ensures
        ({
            let payload = parameters.payload_length();
            let size = parameters.segment_length();
            let count = parameters.segments_for_plaintext(length);
            let start = position * payload;
            &&& 0 <= start <= length
            &&& position * size == start + 32 * position
            &&& (position + 1) * size == position * size + size
            &&& (position + 1) * payload == start + payload
            &&& SEGMENT_OVERHEAD * count == 32 * count
            &&& position + 1 < count ==> start + payload <= length
            &&& position + 1 == count ==> length <= start + payload
            &&& count <= length + 1
        }),
{
    let payload = parameters.payload_length();
    let size = parameters.segment_length();
    let count = parameters.segments_for_plaintext(length);
    parameters.lemma_segments_for_plaintext(length);
    assert(position * size == position * payload + 32 * position) by (nonlinear_arith)
        requires
            size == payload + 32,
    ;
    assert((position + 1) * size == position * size + size) by (nonlinear_arith);
    assert((position + 1) * payload == position * payload + payload) by (nonlinear_arith);
    assert(count * payload == (count - 1) * payload + payload) by (nonlinear_arith);
    assert(SEGMENT_OVERHEAD * count == 32 * count) by (nonlinear_arith)
        requires
            SEGMENT_OVERHEAD == 32,
    ;
    assert(0 <= position * payload <= (count - 1) * payload) by (nonlinear_arith)
        requires
            0 <= position <= count - 1,
            0 <= payload,
    ;
    if position + 1 < count {
        assert((position + 1) * payload <= (count - 1) * payload) by (nonlinear_arith)
            requires
                position + 1 <= count - 1,
                0 <= payload,
        ;
    }
}

/// A segment that encrypts a piece declares itself, and authenticates the
/// piece.
pub(crate) proof fn lemma_piece_authenticates(
    session: Session,
    position: u64,
    kind: SegmentKind,
    piece: Seq<u8>,
    segment: Seq<u8>,
)
    requires
        session.parameters.wf(),
        position < AEAD_MAX_SEGMENTS,
        plaintext_error(session.parameters, kind, piece.len() as int) is None,
        session.encrypts(position, kind, piece, segment),
    ensures
        segment.len() == SEGMENT_OVERHEAD + piece.len(),
        prefix_error(session.parameters, segment) is None,
        segment_kind(segment) == kind,
        SegmentFraming::declared_length(session.parameters, segment_prefix_value(segment))
            == segment.len(),
        session.authenticated(position, kind, segment) == Ok::<Seq<u8>, Error>(piece),
{
    reveal(Session::encrypts);
    session.lemma_segment_round_trip(position, kind, piece, segment);
    SegmentFraming::lemma_prefix_declares_segment(session.parameters, kind, segment.len() as int);
    assert(segment.take(SEGMENT_PREFIX_LENGTH as int) =~= crate::bytes::be32(
        prefix_value(kind, segment.len() as int),
    ));
}

/// One step of decrypting a body: its first segment gives `piece`, and what
/// follows gives the rest.
pub(crate) proof fn lemma_body_step(
    session: Session,
    counter: SegmentCounter,
    body: Seq<u8>,
    segment: Seq<u8>,
    piece: Seq<u8>,
)
    requires
        session.parameters.wf(),
        SEGMENT_PREFIX_LENGTH <= segment.len() <= body.len(),
        body.take(segment.len() as int) == segment,
        prefix_error(session.parameters, segment) is None,
        SegmentFraming::declared_length(session.parameters, segment_prefix_value(segment))
            == segment.len(),
        segment_kind(segment) is Final ==> body.len() == segment.len(),
        counter.error(segment_kind(segment)) is None,
        session.authenticated(counter.next, segment_kind(segment), segment) == Ok::<
            Seq<u8>,
            Error,
        >(piece),
    ensures
        body_decrypted(session, counter, body) == after(
            piece,
            body_decrypted(
                session,
                counter.advanced(segment_kind(segment)),
                body.skip(segment.len() as int),
            ),
        ),
{
    reveal(body_decrypted);
    assert(body.take(SEGMENT_PREFIX_LENGTH as int) =~= segment.take(SEGMENT_PREFIX_LENGTH as int));
}

/// The end of a body, and the errors on the way there.
pub(crate) proof fn lemma_body_stops(session: Session, counter: SegmentCounter, body: Seq<u8>)
    requires
        session.parameters.wf(),
    ensures
        body.len() == 0 ==> body_decrypted(session, counter, body) == if counter.closed {
            Ok::<Seq<u8>, Error>(Seq::empty())
        } else {
            Err::<Seq<u8>, Error>(Error::Truncated)
        },
        body.len() > 0 ==> match body_error(session.parameters, body) {
            Some(error) => body_decrypted(session, counter, body) == Err::<Seq<u8>, Error>(error),
            None => match counter.error(segment_kind(body)) {
                Some(error) => body_decrypted(session, counter, body) == Err::<Seq<u8>, Error>(
                    error,
                ),
                None => session.authenticated(
                    counter.next,
                    segment_kind(body),
                    body.take(
                        SegmentFraming::declared_length(
                            session.parameters,
                            segment_prefix_value(body),
                        ),
                    ),
                ) matches Err(error) ==> body_decrypted(session, counter, body) == Err::<
                    Seq<u8>,
                    Error,
                >(error),
            },
        },
{
    reveal(body_decrypted);
}

/// From any segment on, decrypting the rest of an encrypted message gives the
/// rest of its plaintext.
proof fn lemma_body_round_trip(
    session: Session,
    plaintext: Seq<u8>,
    ciphertext: Seq<u8>,
    position: int,
)
    requires
        session.parameters.wf(),
        session.parameters.segments_for_plaintext(plaintext.len() as int) <= AEAD_MAX_SEGMENTS,
        ciphertext.len() == session.parameters.message_length(plaintext.len() as int),
        pieces_encrypted(
            session,
            plaintext,
            ciphertext,
            session.parameters.segments_for_plaintext(plaintext.len() as int),
        ),
        0 <= position < session.parameters.segments_for_plaintext(plaintext.len() as int),
    ensures
        body_decrypted(
            session,
            SegmentCounter { next: position as u64, closed: false },
            ciphertext.skip(HEADER_LENGTH + position * session.parameters.segment_length()),
        ) == Ok::<Seq<u8>, Error>(
            plaintext.skip(position * session.parameters.payload_length()),
        ),
    decreases session.parameters.segments_for_plaintext(plaintext.len() as int) - position,
{
    let parameters = session.parameters;
    let length = plaintext.len() as int;
    let count = parameters.segments_for_plaintext(length);
    let kind = kind_at(parameters, length, position);
    let piece = plaintext_piece(parameters, plaintext, position);
    let segment = ciphertext_piece(parameters, plaintext, ciphertext, position);
    let counter = SegmentCounter { next: position as u64, closed: false };
    let body = ciphertext.skip(HEADER_LENGTH + position * parameters.segment_length());
    lemma_piece_bounds(parameters, length, position);
    assert(session.encrypts(position as u64, kind, piece, segment));
    lemma_piece_authenticates(session, position as u64, kind, piece, segment);
    assert(body.take(segment.len() as int) =~= segment);
    lemma_body_step(session, counter, body, segment, piece);
    if position + 1 < count {
        lemma_body_round_trip(session, plaintext, ciphertext, position + 1);
        assert(body.skip(segment.len() as int) =~= ciphertext.skip(
            HEADER_LENGTH + (position + 1) * parameters.segment_length(),
        ));
        assert(piece + plaintext.skip((position + 1) * parameters.payload_length())
            =~= plaintext.skip(position * parameters.payload_length()));
    } else {
        assert(body.skip(segment.len() as int) =~= Seq::empty());
        lemma_body_stops(session, counter.advanced(kind), Seq::empty());
        assert(piece + Seq::<u8>::empty() =~= plaintext.skip(
            position * parameters.payload_length(),
        ));
    }
}

/// One more segment at the end of a ciphertext keeps the ones before it.
proof fn lemma_piece_appended(
    session: Session,
    plaintext: Seq<u8>,
    before: Seq<u8>,
    after: Seq<u8>,
    position: int,
)
    requires
        session.parameters.wf(),
        0 <= position < session.parameters.segments_for_plaintext(plaintext.len() as int),
        before.len() == HEADER_LENGTH + position * session.parameters.segment_length(),
        pieces_encrypted(session, plaintext, before, position),
        before.len() <= after.len(),
        after.take(before.len() as int) == before,
        session.encrypts(
            position as u64,
            kind_at(session.parameters, plaintext.len() as int, position),
            plaintext_piece(session.parameters, plaintext, position),
            after.skip(before.len() as int),
        ),
    ensures
        pieces_encrypted(session, plaintext, after, position + 1),
        after.take(HEADER_LENGTH as int) == before.take(HEADER_LENGTH as int),
{
    let parameters = session.parameters;
    let length = plaintext.len() as int;
    let size = parameters.segment_length();
    lemma_piece_bounds(parameters, length, position);
    assert(0 <= position * size);
    assert(after.take(HEADER_LENGTH as int) =~= before.take(HEADER_LENGTH as int));
    assert forall|p: int| 0 <= p < position + 1 implies session.encrypts(
        p as u64,
        kind_at(parameters, length, p),
        plaintext_piece(parameters, plaintext, p),
        #[trigger] ciphertext_piece(parameters, plaintext, after, p),
    ) by {
        lemma_piece_bounds(parameters, length, p);
        let old_piece = ciphertext_piece(parameters, plaintext, before, p);
        if p < position {
            assert((p + 1) * size <= position * size) by (nonlinear_arith)
                requires
                    p + 1 <= position,
                    0 <= size,
            ;
            let start = HEADER_LENGTH + p * size;
            let end = start + SEGMENT_OVERHEAD + plaintext_piece(parameters, plaintext, p).len();
            assert(end <= before.len());
            assert(after.subrange(start, end) =~= after.take(before.len() as int).subrange(
                start,
                end,
            ));
        } else {
            assert(after.len() == before.len() + SEGMENT_OVERHEAD + plaintext_piece(
                parameters,
                plaintext,
                p,
            ).len()) by {
                reveal(Session::encrypts);
            }
            assert(after.skip(before.len() as int) =~= ciphertext_piece(
                parameters,
                plaintext,
                after,
                p,
            ));
        }
    }
}

/// Putting plaintext before the rest of a message, piece by piece.
proof fn lemma_after(first: Seq<u8>, second: Seq<u8>, rest: Result<Seq<u8>, Error>)
    ensures
        after(first, after(second, rest)) == after(first + second, rest),
        after(Seq::empty(), rest) == rest,
{
    if rest is Ok {
        assert(first + (second + rest->Ok_0) =~= first + second + rest->Ok_0);
        assert(Seq::<u8>::empty() + rest->Ok_0 =~= rest->Ok_0);
    }
}

/// `body` is non-final segments that give `plaintext`: whatever follows them,
/// decrypting gives `plaintext` and then what follows gives from `counter` on.
#[verifier::opaque]
pub open spec fn opens_with(
    session: Session,
    body: Seq<u8>,
    plaintext: Seq<u8>,
    counter: SegmentCounter,
) -> bool {
    &&& !counter.closed
    &&& forall|rest: Seq<u8>| #[trigger]
        body_decrypted(session, SegmentCounter::start(), body + rest) == after(
            plaintext,
            body_decrypted(session, counter, rest),
        )
}

/// Lengths of ciphertext and plaintext that full segments up to `counter` have.
pub open spec fn full_segments(
    parameters: Parameters,
    counter: SegmentCounter,
    ciphertext_length: int,
    plaintext_length: int,
) -> bool {
    &&& ciphertext_length == counter.next * parameters.segment_length()
    &&& plaintext_length == counter.next * parameters.payload_length()
}

/// One more full segment, and a final segment that follows full ones. Where it
/// is not an empty one that follows others, the message has the length that a
/// layout of its plaintext has.
pub proof fn lemma_full_segments(
    parameters: Parameters,
    counter: SegmentCounter,
    ciphertext_length: int,
    plaintext_length: int,
    last: int,
)
    requires
        parameters.wf(),
        counter.next < u64::MAX,
        full_segments(parameters, counter, ciphertext_length, plaintext_length),
        0 <= last <= parameters.payload_length(),
    ensures
        0 <= ciphertext_length,
        0 <= plaintext_length,
        counter.next == 0 ==> ciphertext_length == 0 && plaintext_length == 0,
        counter.next > 0 ==> parameters.payload_length() <= plaintext_length,
        full_segments(
            parameters,
            counter.advanced(SegmentKind::NonFinal),
            ciphertext_length + parameters.segment_length(),
            plaintext_length + parameters.payload_length(),
        ),
        last > 0 || counter.next == 0 ==> parameters.message_length(plaintext_length + last)
            == HEADER_LENGTH + ciphertext_length + SEGMENT_OVERHEAD + last,
{
    let size = parameters.segment_length();
    let payload = parameters.payload_length();
    let next = counter.next as int;
    assert((next + 1) * size == next * size + size) by (nonlinear_arith);
    assert((next + 1) * payload == next * payload + payload) by (nonlinear_arith);
    assert(next * size == next * payload + 32 * next) by (nonlinear_arith)
        requires
            size == payload + 32,
    ;
    assert(0 <= next * size && 0 <= next * payload) by (nonlinear_arith)
        requires
            0 <= next,
            0 <= size,
            0 <= payload,
    ;
    assert(next > 0 ==> payload <= next * payload) by (nonlinear_arith)
        requires
            0 <= payload,
    ;
    assert(next == 0 ==> next * size == 0 && next * payload == 0) by (nonlinear_arith);
    if last > 0 {
        vstd::arithmetic::div_mod::lemma_fundamental_div_mod_converse(
            plaintext_length + last - 1,
            payload,
            next,
            last - 1,
        );
    }
    assert(SEGMENT_OVERHEAD * (next + 1) == 32 * next + SEGMENT_OVERHEAD) by (nonlinear_arith)
        requires
            SEGMENT_OVERHEAD == 32,
    ;
}

/// A message of which no segment is known yet.
pub proof fn lemma_opens_with_nothing(session: Session)
    ensures
        opens_with(session, Seq::empty(), Seq::empty(), SegmentCounter::start()),
{
    reveal(opens_with);
    assert forall|rest: Seq<u8>| #[trigger]
        body_decrypted(session, SegmentCounter::start(), Seq::<u8>::empty() + rest) == after(
            Seq::empty(),
            body_decrypted(session, SegmentCounter::start(), rest),
        ) by {
        assert(Seq::<u8>::empty() + rest =~= rest);
        lemma_after(
            Seq::empty(),
            Seq::empty(),
            body_decrypted(session, SegmentCounter::start(), rest),
        );
    }
}

/// One more segment that authenticates: a non-final one leaves the message
/// open, and a final one completes it.
pub proof fn lemma_opens_with_segment(
    session: Session,
    body: Seq<u8>,
    plaintext: Seq<u8>,
    counter: SegmentCounter,
    segment: Seq<u8>,
    piece: Seq<u8>,
)
    requires
        session.parameters.wf(),
        opens_with(session, body, plaintext, counter),
        SEGMENT_PREFIX_LENGTH <= segment.len(),
        prefix_error(session.parameters, segment) is None,
        SegmentFraming::declared_length(session.parameters, segment_prefix_value(segment))
            == segment.len(),
        counter.error(segment_kind(segment)) is None,
        session.authenticated(counter.next, segment_kind(segment), segment) == Ok::<
            Seq<u8>,
            Error,
        >(piece),
    ensures
        segment_kind(segment) is NonFinal ==> opens_with(
            session,
            body + segment,
            plaintext + piece,
            counter.advanced(SegmentKind::NonFinal),
        ),
        segment_kind(segment) is Final ==> body_decrypted(
            session,
            SegmentCounter::start(),
            body + segment,
        ) == Ok::<Seq<u8>, Error>(plaintext + piece),
{
    reveal(opens_with);
    let kind = segment_kind(segment);
    let next = counter.advanced(kind);
    if kind is NonFinal {
        assert forall|rest: Seq<u8>| #[trigger]
            body_decrypted(session, SegmentCounter::start(), body + segment + rest) == after(
                plaintext + piece,
                body_decrypted(session, next, rest),
            ) by {
            assert(body + segment + rest =~= body + (segment + rest));
            assert((segment + rest).take(segment.len() as int) =~= segment);
            assert((segment + rest).skip(segment.len() as int) =~= rest);
            lemma_body_step(session, counter, segment + rest, segment, piece);
            lemma_after(plaintext, piece, body_decrypted(session, next, rest));
        }
    } else {
        assert(segment.take(segment.len() as int) =~= segment);
        assert(segment.skip(segment.len() as int) =~= Seq::empty());
        lemma_body_step(session, counter, segment, segment, piece);
        lemma_body_stops(session, next, Seq::empty());
        assert(body_decrypted(session, SegmentCounter::start(), body + segment) == after(
            plaintext,
            body_decrypted(session, counter, segment),
        ));
        lemma_after(plaintext, piece, Ok(Seq::empty()));
        assert(plaintext + piece + Seq::<u8>::empty() =~= plaintext + piece);
    }
}

/// One more segment that encrypts `piece`: a non-final one leaves the message
/// open, and a final one completes it.
pub proof fn lemma_opens_with_encrypted(
    session: Session,
    body: Seq<u8>,
    plaintext: Seq<u8>,
    counter: SegmentCounter,
    kind: SegmentKind,
    segment: Seq<u8>,
    piece: Seq<u8>,
)
    requires
        session.parameters.wf(),
        counter.wf(),
        opens_with(session, body, plaintext, counter),
        plaintext_error(session.parameters, kind, piece.len() as int) is None,
        counter.error(kind) is None,
        session.encrypts(counter.next, kind, piece, segment),
    ensures
        kind is NonFinal ==> opens_with(
            session,
            body + segment,
            plaintext + piece,
            counter.advanced(SegmentKind::NonFinal),
        ),
        kind is Final ==> body_decrypted(session, SegmentCounter::start(), body + segment) == Ok::<
            Seq<u8>,
            Error,
        >(plaintext + piece),
{
    lemma_piece_authenticates(session, counter.next, kind, piece, segment);
    lemma_opens_with_segment(session, body, plaintext, counter, segment, piece);
}

/// A message that decrypts gives the plaintext of each of its segments, in
/// order: where the segments in `body` give `plaintext`, and the message goes on
/// with `segment`, that segment is accepted.
pub proof fn lemma_valid_message_continues(
    session: Session,
    body: Seq<u8>,
    plaintext: Seq<u8>,
    counter: SegmentCounter,
    segment: Seq<u8>,
    rest: Seq<u8>,
    message: Seq<u8>,
)
    requires
        session.parameters.wf(),
        opens_with(session, body, plaintext, counter),
        SEGMENT_PREFIX_LENGTH <= segment.len(),
        body_decrypted(session, SegmentCounter::start(), body + segment + rest) == Ok::<
            Seq<u8>,
            Error,
        >(message),
    ensures
        prefix_error(session.parameters, segment) is None,
        SegmentFraming::declared_length(session.parameters, segment_prefix_value(segment))
            <= segment.len() + rest.len(),
        SegmentFraming::declared_length(session.parameters, segment_prefix_value(segment))
            == segment.len() ==> {
            let piece = session.authenticated(counter.next, segment_kind(segment), segment);
            &&& counter.error(segment_kind(segment)) is None
            &&& piece is Ok
            &&& (plaintext + piece->Ok_0).is_prefix_of(message)
            &&& segment_kind(segment) is Final ==> rest.len() == 0 && message == plaintext
                + piece->Ok_0
        },
{
    reveal(opens_with);
    reveal(body_decrypted);
    let remaining = segment + rest;
    assert(body + segment + rest =~= body + remaining);
    let given = body_decrypted(session, counter, remaining);
    assert(body_decrypted(session, SegmentCounter::start(), body + remaining) == after(
        plaintext,
        given,
    ));
    assert(remaining.take(SEGMENT_PREFIX_LENGTH as int) =~= segment.take(
        SEGMENT_PREFIX_LENGTH as int,
    ));
    let kind = segment_kind(segment);
    let length = SegmentFraming::declared_length(
        session.parameters,
        segment_prefix_value(segment),
    );
    if length == segment.len() {
        assert(remaining.take(length) =~= segment);
        let piece = session.authenticated(counter.next, kind, segment)->Ok_0;
        let more = body_decrypted(session, counter.advanced(kind), remaining.skip(length))->Ok_0;
        assert(given == Ok::<Seq<u8>, Error>(piece + more));
        assert(message =~= plaintext + piece + more);
        if kind is Final {
            assert(remaining.skip(length) =~= Seq::empty());
        }
    }
}

/// A header and a body that decrypts are a message that decrypts.
pub proof fn lemma_body_completes_message(
    key: Seq<u8>,
    aad: Seq<u8>,
    parameters: Parameters,
    iv: Seq<u8>,
    ciphertext: Seq<u8>,
)
    requires
        parameters.wf(),
        iv.len() == FLOE_IV_LENGTH,
        ciphertext.take(HEADER_LENGTH as int) == header(key, parameters, iv, aad),
        HEADER_LENGTH <= ciphertext.len(),
    ensures
        message_decrypted(key, aad, ciphertext) == body_decrypted(
            session(key, parameters, iv, aad),
            SegmentCounter::start(),
            ciphertext.skip(HEADER_LENGTH as int),
        ),
{
    let bytes = header(key, parameters, iv, aad);
    assert(bytes.len() == HEADER_LENGTH);
    assert(bytes.take(ENCODED_PARAMETERS_LENGTH as int) =~= parameters.encoding());
    assert(ciphertext.take(ENCODED_PARAMETERS_LENGTH as int) =~= bytes.take(
        ENCODED_PARAMETERS_LENGTH as int,
    ));
    assert(header_iv(bytes) =~= iv);
    parameters.lemma_encoding_round_trip();
}

/// Decryption undoes encryption: a message that encrypts a plaintext under a
/// key and associated data decrypts to that plaintext, whatever IV and nonces
/// were drawn, and whichever provider encrypts or decrypts.
pub proof fn lemma_message_round_trip(
    key: Seq<u8>,
    aad: Seq<u8>,
    parameters: Parameters,
    iv: Seq<u8>,
    plaintext: Seq<u8>,
    ciphertext: Seq<u8>,
)
    requires
        parameters.wf(),
        parameters.segments_for_plaintext(plaintext.len() as int) <= AEAD_MAX_SEGMENTS,
        message_encrypted(
            session(key, parameters, iv, aad),
            header(key, parameters, iv, aad),
            plaintext,
            ciphertext,
        ),
        iv.len() == FLOE_IV_LENGTH,
    ensures
        message_decrypted(key, aad, ciphertext) == Ok::<Seq<u8>, Error>(plaintext),
        message_decrypted_with(key, aad, parameters, ciphertext) == Ok::<Seq<u8>, Error>(
            plaintext,
        ),
{
    let bytes = header(key, parameters, iv, aad);
    lemma_piece_bounds(parameters, plaintext.len() as int, 0);
    assert(bytes.len() == HEADER_LENGTH);
    assert(bytes.take(ENCODED_PARAMETERS_LENGTH as int) =~= parameters.encoding());
    assert(ciphertext.take(ENCODED_PARAMETERS_LENGTH as int) =~= ciphertext.take(
        HEADER_LENGTH as int,
    ).take(ENCODED_PARAMETERS_LENGTH as int));
    assert(header_iv(bytes) =~= iv);
    parameters.lemma_encoding_round_trip();
    lemma_body_round_trip(session(key, parameters, iv, aad), plaintext, ciphertext, 0);
    assert(0 * parameters.segment_length() == 0 && 0 * parameters.payload_length() == 0);
    assert(plaintext.skip(0) =~= plaintext);
}

/// A message that decrypts loses its validity with its end: no shorter part
/// of a body that decrypts from an open state decrypts too.
pub proof fn lemma_truncated_body_is_rejected(
    session: Session,
    counter: SegmentCounter,
    body: Seq<u8>,
    length: int,
)
    requires
        session.parameters.wf(),
        !counter.closed,
        body_decrypted(session, counter, body) is Ok,
        0 <= length < body.len(),
    ensures
        body_decrypted(session, counter, body.take(length)) is Err,
    decreases body.len(),
{
    reveal(body_decrypted);
    let kind = segment_kind(body);
    let size = SegmentFraming::declared_length(session.parameters, segment_prefix_value(body));
    let shorter = body.take(length);
    if length >= SEGMENT_PREFIX_LENGTH {
        assert(shorter.take(SEGMENT_PREFIX_LENGTH as int) =~= body.take(
            SEGMENT_PREFIX_LENGTH as int,
        ));
        if length >= size {
            assert(kind is NonFinal);
            assert(shorter.take(size) =~= body.take(size));
            assert(shorter.skip(size) =~= body.skip(size).take(length - size));
            lemma_truncated_body_is_rejected(
                session,
                counter.advanced(kind),
                body.skip(size),
                length - size,
            );
        }
    }
}

/// No message that decrypts can be cut short: every proper part of it that
/// starts with a header is rejected, whatever the parameters demanded.
pub proof fn lemma_truncated_message_is_rejected(
    key: Seq<u8>,
    aad: Seq<u8>,
    ciphertext: Seq<u8>,
    length: int,
)
    requires
        message_decrypted(key, aad, ciphertext) is Ok,
        HEADER_LENGTH <= length < ciphertext.len(),
    ensures
        message_decrypted(key, aad, ciphertext.take(length)) is Err,
{
    let shorter = ciphertext.take(length);
    assert(shorter.take(HEADER_LENGTH as int) =~= ciphertext.take(HEADER_LENGTH as int));
    assert(shorter.take(ENCODED_PARAMETERS_LENGTH as int) =~= ciphertext.take(
        ENCODED_PARAMETERS_LENGTH as int,
    ));
    assert(shorter.skip(HEADER_LENGTH as int) =~= ciphertext.skip(HEADER_LENGTH as int).take(
        length - HEADER_LENGTH,
    ));
    Parameters::lemma_decoding(ciphertext.take(ENCODED_PARAMETERS_LENGTH as int));
    let parameters = Parameters::decoding(
        ciphertext.take(ENCODED_PARAMETERS_LENGTH as int),
    )->0;
    lemma_truncated_body_is_rejected(
        session(key, parameters, header_iv(ciphertext.take(HEADER_LENGTH as int)), aad),
        SegmentCounter::start(),
        ciphertext.skip(HEADER_LENGTH as int),
        length - HEADER_LENGTH,
    );
}

/// Nothing can follow a body that decrypts from an open state.
pub proof fn lemma_extended_body_is_rejected(
    session: Session,
    counter: SegmentCounter,
    body: Seq<u8>,
    more: Seq<u8>,
)
    requires
        session.parameters.wf(),
        !counter.closed,
        body_decrypted(session, counter, body) is Ok,
        more.len() > 0,
    ensures
        body_decrypted(session, counter, body + more) is Err,
    decreases body.len(),
{
    reveal(body_decrypted);
    let kind = segment_kind(body);
    let size = SegmentFraming::declared_length(session.parameters, segment_prefix_value(body));
    let longer = body + more;
    assert(longer.take(SEGMENT_PREFIX_LENGTH as int) =~= body.take(SEGMENT_PREFIX_LENGTH as int));
    if kind is NonFinal {
        assert(longer.take(size) =~= body.take(size));
        assert(longer.skip(size) =~= body.skip(size) + more);
        lemma_extended_body_is_rejected(session, counter.advanced(kind), body.skip(size), more);
    }
}

/// No message that decrypts can be extended: with anything appended it is
/// rejected.
pub proof fn lemma_extended_message_is_rejected(
    key: Seq<u8>,
    aad: Seq<u8>,
    ciphertext: Seq<u8>,
    more: Seq<u8>,
)
    requires
        message_decrypted(key, aad, ciphertext) is Ok,
        HEADER_LENGTH <= ciphertext.len(),
        more.len() > 0,
    ensures
        message_decrypted(key, aad, ciphertext + more) is Err,
{
    let longer = ciphertext + more;
    assert(longer.take(HEADER_LENGTH as int) =~= ciphertext.take(HEADER_LENGTH as int));
    assert(longer.take(ENCODED_PARAMETERS_LENGTH as int) =~= ciphertext.take(
        ENCODED_PARAMETERS_LENGTH as int,
    ));
    assert(longer.skip(HEADER_LENGTH as int) =~= ciphertext.skip(HEADER_LENGTH as int) + more);
    Parameters::lemma_decoding(ciphertext.take(ENCODED_PARAMETERS_LENGTH as int));
    let parameters = Parameters::decoding(
        ciphertext.take(ENCODED_PARAMETERS_LENGTH as int),
    )->0;
    lemma_extended_body_is_rejected(
        session(key, parameters, header_iv(ciphertext.take(HEADER_LENGTH as int)), aad),
        SegmentCounter::start(),
        ciphertext.skip(HEADER_LENGTH as int),
        more,
    );
}

/// Decrypting with the parameters that a header declares is decrypting with
/// the parameters taken from the header, and demanding others is refused.
pub proof fn lemma_demanded_parameters(
    key: Seq<u8>,
    aad: Seq<u8>,
    parameters: Parameters,
    ciphertext: Seq<u8>,
)
    requires
        parameters.wf(),
        HEADER_LENGTH <= ciphertext.len(),
    ensures
        Parameters::decoding(ciphertext.take(ENCODED_PARAMETERS_LENGTH as int)) == Some(parameters)
            ==> message_decrypted_with(key, aad, parameters, ciphertext) == message_decrypted(
            key,
            aad,
            ciphertext,
        ),
        Parameters::decoding(ciphertext.take(ENCODED_PARAMETERS_LENGTH as int)) != Some(parameters)
            ==> message_decrypted_with(key, aad, parameters, ciphertext) == Err::<
            Seq<u8>,
            Error,
        >(Error::InvalidHeaderParameters),
{
    assert(ciphertext.take(HEADER_LENGTH as int).take(ENCODED_PARAMETERS_LENGTH as int)
        =~= ciphertext.take(ENCODED_PARAMETERS_LENGTH as int));
    if parameters.encoding() == ciphertext.take(ENCODED_PARAMETERS_LENGTH as int) {
        parameters.lemma_encoding_round_trip();
    }
}

/// A body that decrypts begins with a full non-final segment, which something
/// follows, or is a final segment. That segment decrypts by itself to where the
/// plaintext begins.
#[verifier::rlimit(30)]
pub(crate) proof fn lemma_first_segment_of_body(session: Session, next: u64, body: Seq<u8>, plaintext: Seq<u8>)
    requires
        session.parameters.wf(),
        body_decrypted(session, SegmentCounter { next, closed: false }, body) == Ok::<
            Seq<u8>,
            Error,
        >(plaintext),
    ensures
        next < AEAD_MAX_SEGMENTS,
        ({
            let size = session.parameters.segment_length();
            let payload = session.parameters.payload_length();
            if segment_kind(body) is NonFinal {
                &&& size < body.len()
                &&& payload <= plaintext.len()
                &&& next + 1 < AEAD_MAX_SEGMENTS
                &&& session.decrypted(next, SegmentKind::NonFinal, body.take(size)) == Ok::<
                    Seq<u8>,
                    Error,
                >(plaintext.take(payload))
                &&& body_decrypted(
                    session,
                    SegmentCounter { next: (next + 1) as u64, closed: false },
                    body.skip(size),
                ) == Ok::<Seq<u8>, Error>(plaintext.skip(payload))
            } else {
                &&& SEGMENT_OVERHEAD <= body.len() <= size
                &&& plaintext.len() == body.len() - SEGMENT_OVERHEAD
                &&& session.decrypted(next, SegmentKind::Final, body) == Ok::<Seq<u8>, Error>(
                    plaintext,
                )
            }
        }),
{
    reveal(body_decrypted);
    let size = session.parameters.segment_length();
    let counter = SegmentCounter { next, closed: false };
    let kind = segment_kind(body);
    let length = SegmentFraming::declared_length(session.parameters, segment_prefix_value(body));
    let segment = body.take(length);
    let piece = session.authenticated(next, kind, segment)->Ok_0;
    let rest = body_decrypted(session, counter.advanced(kind), body.skip(length));
    assert(segment.take(SEGMENT_PREFIX_LENGTH as int) =~= body.take(SEGMENT_PREFIX_LENGTH as int));
    lemma_opened_length(
        session.segment_key(next),
        segment_nonce(segment),
        segment_aad(next, kind),
        segment.skip(SEGMENT_PAYLOAD_OFFSET as int),
    );
    assert(piece.len() == length - SEGMENT_OVERHEAD);
    assert(plaintext == piece + rest->Ok_0);
    if kind is NonFinal {
        if body.len() == size {
            assert(body.skip(length) =~= Seq::empty());
        }
        assert(plaintext.take(piece.len() as int) =~= piece);
        assert(plaintext.skip(piece.len() as int) =~= rest->Ok_0);
    } else {
        assert(segment =~= body);
        assert(body.skip(length) =~= Seq::empty());
        assert(plaintext =~= piece);
    }
}

/// The length of the segment that starts at `start` of `body`.
pub open spec fn segment_length_at(parameters: Parameters, body: Seq<u8>, start: int) -> int {
    if body.len() - start < parameters.segment_length() {
        body.len() - start
    } else {
        parameters.segment_length()
    }
}

/// The segment that lies at `start` of `body` is at `position`, and decrypts by
/// itself to what `plaintext` holds from `from` on.
pub open spec fn segment_stands_at(
    session: Session,
    position: u64,
    body: Seq<u8>,
    start: int,
    plaintext: Seq<u8>,
    from: int,
) -> bool {
    let length = segment_length_at(session.parameters, body, start);
    let end = from + length - SEGMENT_OVERHEAD;
    let kind = if start + length == body.len() {
        SegmentKind::Final
    } else {
        SegmentKind::NonFinal
    };
    &&& SEGMENT_OVERHEAD <= length
    &&& position < AEAD_MAX_SEGMENTS
    &&& 0 <= from
    &&& end <= plaintext.len()
    &&& kind is Final ==> end == plaintext.len()
    &&& session.decrypted(position, kind, body.subrange(start, start + length)) == Ok::<
        Seq<u8>,
        Error,
    >(plaintext.subrange(from, end))
}

/// What stands in the rest of a body stands in the body.
proof fn lemma_stands_in_rest(
    session: Session,
    position: u64,
    body: Seq<u8>,
    start: int,
    plaintext: Seq<u8>,
    from: int,
)
    requires
        session.parameters.wf(),
        session.parameters.segment_length() <= start < body.len(),
        session.parameters.payload_length() <= from,
        session.parameters.payload_length() <= plaintext.len(),
        segment_stands_at(
            session,
            position,
            body.skip(session.parameters.segment_length()),
            start - session.parameters.segment_length(),
            plaintext.skip(session.parameters.payload_length()),
            from - session.parameters.payload_length(),
        ),
    ensures
        segment_stands_at(session, position, body, start, plaintext, from),
{
    let size = session.parameters.segment_length();
    let payload = session.parameters.payload_length();
    let length = segment_length_at(session.parameters, body, start);
    assert(body.subrange(start, start + length) =~= body.skip(size).subrange(
        start - size,
        start - size + length,
    ));
    assert(plaintext.subrange(from, from + length - SEGMENT_OVERHEAD) =~= plaintext.skip(
        payload,
    ).subrange(from - payload, from - payload + length - SEGMENT_OVERHEAD));
}

/// The segments of a body that decrypts lie where its length puts them, and
/// each decrypts by itself to its piece of the plaintext.
pub(crate) proof fn lemma_segment_of_body(
    session: Session,
    first: u64,
    body: Seq<u8>,
    plaintext: Seq<u8>,
    index: int,
)
    requires
        session.parameters.wf(),
        body_decrypted(session, SegmentCounter { next: first, closed: false }, body) == Ok::<
            Seq<u8>,
            Error,
        >(plaintext),
        0 <= index,
        index * session.parameters.segment_length() < body.len(),
    ensures
        segment_stands_at(
            session,
            (first + index) as u64,
            body,
            index * session.parameters.segment_length(),
            plaintext,
            index * session.parameters.payload_length(),
        ),
        first + index < AEAD_MAX_SEGMENTS,
    decreases index,
{
    let size = session.parameters.segment_length();
    let payload = session.parameters.payload_length();
    lemma_first_segment_of_body(session, first, body, plaintext);
    if index == 0 {
        assert(index * size == 0 && index * payload == 0) by (nonlinear_arith)
            requires
                index == 0,
        ;
        if segment_kind(body) is NonFinal {
            assert(body.subrange(0, size) =~= body.take(size));
            assert(plaintext.subrange(0, payload) =~= plaintext.take(payload));
        } else {
            assert(body.subrange(0, body.len() as int) =~= body);
            assert(plaintext.subrange(0, plaintext.len() as int) =~= plaintext);
        }
    } else {
        assert(size <= index * size && payload <= index * payload) by (nonlinear_arith)
            requires
                1 <= index,
                0 <= size,
                0 <= payload,
        ;
        assert((index - 1) * size == index * size - size) by (nonlinear_arith);
        assert((index - 1) * payload == index * payload - payload) by (nonlinear_arith);
        lemma_segment_of_body(
            session,
            (first + 1) as u64,
            body.skip(size),
            plaintext.skip(payload),
            index - 1,
        );
        lemma_stands_in_rest(
            session,
            (first + index) as u64,
            body,
            index * size,
            plaintext,
            index * payload,
        );
    }
}

/// Random access agrees with decrypting a complete message: where a message
/// decrypts, its length has a layout, the layout's plaintext length is that of
/// the plaintext, and every segment of the layout decrypts by itself to its
/// piece of the plaintext.
pub proof fn lemma_random_access_agrees(
    session: Session,
    ciphertext: Seq<u8>,
    plaintext: Seq<u8>,
    layout: MessageLayout,
    position: int,
)
    requires
        session.parameters.wf(),
        HEADER_LENGTH <= ciphertext.len() <= u64::MAX,
        body_decrypted(
            session,
            SegmentCounter::start(),
            ciphertext.skip(HEADER_LENGTH as int),
        ) == Ok::<Seq<u8>, Error>(plaintext),
        layout.wf(),
        layout.parameters() == session.parameters,
        layout.ciphertext_length() == ciphertext.len(),
        layout.segment_count() == session.parameters.segments_for_body(
            ciphertext.len() - HEADER_LENGTH,
        ),
        0 <= position < layout.segment_count(),
    ensures
        session.parameters.ciphertext_layout_error(ciphertext.len() as u64) is None,
        layout.plaintext_length() == plaintext.len(),
        session.decrypted(
            position as u64,
            layout.kind_at(position),
            ciphertext.subrange(
                layout.ciphertext_start(position),
                layout.ciphertext_start(position) + layout.ciphertext_size(position),
            ),
        ) == Ok::<Seq<u8>, Error>(
            plaintext.subrange(
                layout.plaintext_start(position),
                layout.plaintext_start(position) + layout.plaintext_size(position),
            ),
        ),
{
    let body = ciphertext.skip(HEADER_LENGTH as int);
    let size = session.parameters.segment_length();
    let count = layout.segment_count() as int;
    let last = count - 1;
    if body.len() == 0 {
        lemma_body_stops(session, SegmentCounter::start(), body);
    }
    session.parameters.lemma_segments_for_body(body.len() as int);
    layout.lemma_segments_tile(position);
    layout.lemma_segments_tile(last);
    lemma_segment_of_body(session, 0, body, plaintext, last);
    assert(position * size <= last * size) by (nonlinear_arith)
        requires
            position <= last,
            0 <= size,
    ;
    lemma_segment_of_body(session, 0, body, plaintext, position);
    assert(count * size == last * size + size) by (nonlinear_arith)
        requires
            last == count - 1,
    ;
    if position < last {
        assert((position + 1) * size <= last * size) by (nonlinear_arith)
            requires
                position + 1 <= last,
                0 <= size,
        ;
        assert((position + 1) * size == position * size + size) by (nonlinear_arith);
    }
    let start = layout.ciphertext_start(position);
    let length = layout.ciphertext_size(position);
    assert(ciphertext.subrange(start, start + length) =~= body.subrange(
        position * size,
        position * size + length,
    ));
}

/// The error, if any, of encrypting `length` plaintext bytes as one message,
/// other than a failure to draw random bytes.
pub open spec fn message_error(parameters: Parameters, length: usize) -> Option<Error> {
    if parameters.plaintext_layout_error(length as u64) is Some {
        parameters.plaintext_layout_error(length as u64)
    } else if parameters.message_length(length as int) > usize::MAX {
        Some(Error::LengthOverflow)
    } else {
        None
    }
}

/// Encrypts a complete plaintext, including its header and final segment.
///
/// # Errors
///
/// Returns an error if a provider is required, for length or segment-count
/// overflow, or for random-generation failure.
pub fn encrypt(key: &Key, aad: &[u8], parameters: Parameters, plaintext: &[u8]) -> (result: Result<
    Vec<u8>,
    Error,
>)
    ensures
        match result {
            Ok(ciphertext) => {
                let iv = header_iv(ciphertext@.take(HEADER_LENGTH as int));
                &&& key.resolved() is Some
                &&& message_error(parameters, plaintext.len()) is None
                &&& message_encrypted(
                    session(key@, parameters, iv, aad@),
                    header(key@, parameters, iv, aad@),
                    plaintext@,
                    ciphertext@,
                )
                &&& message_decrypted(key@, aad@, ciphertext@) == Ok::<Seq<u8>, Error>(plaintext@)
            },
            Err(error) => if key.resolved() is None {
                error == Error::ProviderSelectionRequired
            } else {
                error == Error::RngFailure || Some(error) == message_error(
                    parameters,
                    plaintext.len(),
                )
            },
        },
{
    let encryptor = Encryptor::new(key, aad, parameters)?;
    let ghost bytes = encryptor.spec_header()@;
    let ciphertext = encrypt_body(encryptor, plaintext)?;
    proof {
        assert(bytes.len() == HEADER_LENGTH);
        lemma_message_round_trip(
            key@,
            aad@,
            parameters,
            header_iv(bytes),
            plaintext@,
            ciphertext@,
        );
    }
    Ok(ciphertext)
}

/// Encrypts a complete plaintext with an encryptor at the start of a message.
#[verifier::rlimit(30)]
fn encrypt_body(encryptor: Encryptor, plaintext: &[u8]) -> (result: Result<Vec<u8>, Error>)
    requires
        encryptor.wf(),
        encryptor.counter() == SegmentCounter::start(),
        encryptor.session().parameters.wf(),
    ensures
        match result {
            Ok(ciphertext) => {
                &&& message_error(encryptor.session().parameters, plaintext.len()) is None
                &&& message_encrypted(
                    encryptor.session(),
                    encryptor.spec_header()@,
                    plaintext@,
                    ciphertext@,
                )
            },
            Err(error) => match message_error(encryptor.session().parameters, plaintext.len()) {
                Some(expected) => error == expected,
                None => {
                    &&& error == Error::RngFailure
                    &&& !encryptor.nonces().seeded
                    &&& encryptor.nonces().left().len() < AEAD_IV_LENGTH
                        * encryptor.session().parameters.segments_for_plaintext(
                        plaintext@.len() as int,
                    )
                },
            },
        },
{
    let parameters = encryptor.parameters();
    let layout = parameters.plaintext_layout(plaintext.len() as u64)?;
    let total = layout.ciphertext_length();
    if total > usize::MAX as u64 {
        return Err(Error::LengthOverflow);
    }
    let mut ciphertext: Vec<u8> = Vec::with_capacity(total as usize);
    ciphertext.extend_from_slice(encryptor.header().as_bytes());
    let ghost session = encryptor.session();
    let ghost bytes = encryptor.spec_header()@;
    let ghost length = plaintext@.len() as int;
    let mut this = encryptor;
    let count = layout.segment_count();
    let mut position: u64 = 0;
    proof {
        assert(ciphertext@.take(HEADER_LENGTH as int) =~= bytes);
        assert(0 * parameters.segment_length() == 0);
        parameters.lemma_segments_for_plaintext(length);
    }
    while position + 1 < count
        invariant
            parameters.wf(),
            session.parameters == parameters,
            length == plaintext@.len(),
            plaintext.len() == length,
            layout.wf(),
            layout.parameters() == parameters,
            layout.plaintext_length() == length,
            layout.segment_count() == count,
            layout.ciphertext_length() == parameters.message_length(length),
            layout.ciphertext_length() <= usize::MAX,
            count == parameters.segments_for_plaintext(length),
            1 <= count <= AEAD_MAX_SEGMENTS,
            position < count,
            this.wf(),
            this.session() == session,
            session == encryptor.session(),
            message_error(parameters, plaintext.len()) is None,
            encryptor.nonces().seeded ==> this.nonces().seeded,
            encryptor.nonces().left().len() <= this.nonces().left().len() + AEAD_IV_LENGTH * position,
            this.counter() == (SegmentCounter { next: position, closed: false }),
            bytes.len() == HEADER_LENGTH,
            ciphertext@.len() == HEADER_LENGTH + position * parameters.segment_length(),
            ciphertext@.take(HEADER_LENGTH as int) == bytes,
            pieces_encrypted(session, plaintext@, ciphertext@, position as int),
        decreases count - position,
    {
        proof {
            layout.lemma_segments_tile(position as int);
            lemma_piece_bounds(parameters, length, position as int);
        }
        let segment = match layout.segment_for_position(position) {
            Some(segment) => segment,
            None => {
                return Err(Error::LengthOverflow);
            },
        };
        let start = segment.plaintext_offset() as usize;
        let chunk = &plaintext[start..start + segment.plaintext_length()];
        let output_start: usize = ciphertext.len();
        let output_end: usize = output_start + segment.ciphertext_length();
        let ghost before = ciphertext@;
        ciphertext.resize(output_end, 0);
        let output = range_mut(ciphertext.as_mut_slice(), output_start, output_end);
        proof {
            this.lemma_next_position();
        }
        this.encrypt_non_final_segment_into(chunk, output)?;
        proof {
            assert(chunk@ =~= plaintext_piece(parameters, plaintext@, position as int));
            assert(ciphertext@.take(before.len() as int) =~= before);
            assert(ciphertext@.skip(before.len() as int) =~= ciphertext@.subrange(
                output_start as int,
                output_end as int,
            ));
            assert(ciphertext@.skip(before.len() as int) =~= ciphertext@.skip(
                before.len() as int,
            ).take(segment.ciphertext_length() as int));
            lemma_piece_appended(session, plaintext@, before, ciphertext@, position as int);
        }
        position += 1;
    }
    proof {
        layout.lemma_segments_tile(position as int);
        lemma_piece_bounds(parameters, length, position as int);
    }
    let segment = layout.final_segment();
    let start = segment.plaintext_offset() as usize;
    let chunk = &plaintext[start..start + segment.plaintext_length()];
    let output_start: usize = ciphertext.len();
    let output_end: usize = output_start + segment.ciphertext_length();
    let ghost before = ciphertext@;
    ciphertext.resize(output_end, 0);
    let output = range_mut(ciphertext.as_mut_slice(), output_start, output_end);
    match this.encrypt_final_segment_into(chunk, output) {
        Ok(_) => {},
        Err(failure) => {
            return Err(failure.into_error());
        },
    }
    proof {
        assert(chunk@ =~= plaintext_piece(parameters, plaintext@, position as int));
        assert(ciphertext@.take(before.len() as int) =~= before);
        assert(ciphertext@.skip(before.len() as int) =~= ciphertext@.subrange(
            output_start as int,
            output_end as int,
        ));
        assert(ciphertext@.skip(before.len() as int) =~= ciphertext@.skip(
            before.len() as int,
        ).take(segment.ciphertext_length() as int));
        lemma_piece_appended(session, plaintext@, before, ciphertext@, position as int);
    }
    Ok(ciphertext)
}

/// Decrypts a complete FLOE ciphertext using its authenticated parameter set.
///
/// # Errors
///
/// Returns an error if a provider is required, for invalid header or segment
/// framing, truncation, segment limits, or authentication failure.
pub fn decrypt(key: &Key, aad: &[u8], ciphertext: &[u8]) -> (result: Result<Vec<u8>, Error>)
    ensures
        (match result {
            Ok(plaintext) => Ok(plaintext@),
            Err(error) => Err(error),
        }) == if ciphertext@.len() < HEADER_LENGTH {
            Err::<Seq<u8>, Error>(
                Error::InvalidHeaderLength { actual: ciphertext@.len() as usize },
            )
        } else if key.resolved() is None {
            Err::<Seq<u8>, Error>(Error::ProviderSelectionRequired)
        } else {
            message_decrypted(key@, aad@, ciphertext@)
        },
{
    let (header, body) = split_header(ciphertext)?;
    assert(header@.take(ENCODED_PARAMETERS_LENGTH as int) =~= ciphertext@.take(
        ENCODED_PARAMETERS_LENGTH as int,
    ));
    let decryptor = Decryptor::new(key, aad, &header)?;
    decrypt_body(decryptor, body)
}

/// Decrypts a complete FLOE ciphertext and requires `parameters`.
///
/// # Errors
///
/// Returns the same errors as [`decrypt`], including
/// [`Error::InvalidHeaderParameters`] when the header uses another profile.
pub fn decrypt_with_parameters(
    key: &Key,
    aad: &[u8],
    parameters: Parameters,
    ciphertext: &[u8],
) -> (result: Result<Vec<u8>, Error>)
    ensures
        (match result {
            Ok(plaintext) => Ok(plaintext@),
            Err(error) => Err(error),
        }) == if ciphertext@.len() < HEADER_LENGTH {
            Err::<Seq<u8>, Error>(
                Error::InvalidHeaderLength { actual: ciphertext@.len() as usize },
            )
        } else if key.resolved() is None {
            Err::<Seq<u8>, Error>(Error::ProviderSelectionRequired)
        } else {
            message_decrypted_with(key@, aad@, parameters, ciphertext@)
        },
{
    let (header, body) = split_header(ciphertext)?;
    let decryptor = Decryptor::new_with_parameters(key, aad, parameters, &header)?;
    decrypt_body(decryptor, body)
}

/// Decrypts the rest of a message.
fn decrypt_body(decryptor: Decryptor, body: &[u8]) -> (result: Result<Vec<u8>, Error>)
    requires
        decryptor.wf(),
        decryptor.session().parameters.wf(),
    ensures
        (match result {
            Ok(plaintext) => Ok(plaintext@),
            Err(error) => Err(error),
        }) == body_decrypted(decryptor.session(), decryptor.counter(), body@),
{
    let ghost session = decryptor.session();
    let ghost expected = body_decrypted(session, decryptor.counter(), body@);
    let ghost total = body.len();
    let mut this = decryptor;
    let mut rest = body;
    let mut plaintext: Vec<u8> = Vec::with_capacity(body.len());
    proof {
        assert(plaintext@ =~= Seq::empty());
        lemma_after(plaintext@, plaintext@, expected);
    }
    while !rest.is_empty()
        invariant
            session.parameters.wf(),
            this.wf(),
            this.session() == session,
            plaintext@.len() + rest@.len() <= total,
            expected == body_decrypted(decryptor.session(), decryptor.counter(), body@),
            expected == after(plaintext@, body_decrypted(session, this.counter(), rest@)),
        decreases rest@.len(),
    {
        let ghost before = plaintext@;
        let length = decrypt_next(&mut this, rest, &mut plaintext)?;
        let (_, remaining) = rest.split_at(length);
        proof {
            assert(remaining@ =~= rest@.skip(length as int));
            lemma_after(
                before,
                plaintext@.skip(before.len() as int),
                body_decrypted(session, this.counter(), remaining@),
            );
            assert(before + plaintext@.skip(before.len() as int) =~= plaintext@);
        }
        rest = remaining;
    }
    proof {
        lemma_body_stops(session, this.counter(), rest@);
    }
    this.finish()?;
    assert(plaintext@ + Seq::<u8>::empty() =~= plaintext@);
    Ok(plaintext)
}

/// Decrypts the segment that the rest of a message starts with, appends its
/// plaintext to `plaintext`, and returns the segment's length.
fn decrypt_next(decryptor: &mut Decryptor, rest: &[u8], plaintext: &mut Vec<u8>) -> (result: Result<
    usize,
    Error,
>)
    requires
        old(decryptor).wf(),
        old(decryptor).session().parameters.wf(),
        rest@.len() > 0,
        old(plaintext)@.len() + rest@.len() <= usize::MAX,
    ensures
        final(decryptor).wf(),
        final(decryptor).session() == old(decryptor).session(),
        match result {
            Ok(length) => {
                &&& SEGMENT_OVERHEAD <= length <= rest@.len()
                &&& final(plaintext)@.len() == old(plaintext)@.len() + length - SEGMENT_OVERHEAD
                &&& final(plaintext)@.take(old(plaintext)@.len() as int) == old(plaintext)@
                &&& body_decrypted(old(decryptor).session(), old(decryptor).counter(), rest@)
                    == after(
                    final(plaintext)@.skip(old(plaintext)@.len() as int),
                    body_decrypted(
                        old(decryptor).session(),
                        final(decryptor).counter(),
                        rest@.skip(length as int),
                    ),
                )
            },
            Err(error) => body_decrypted(
                old(decryptor).session(),
                old(decryptor).counter(),
                rest@,
            ) == Err::<Seq<u8>, Error>(error),
        },
{
    let parameters = decryptor.parameters();
    let ghost session = decryptor.session();
    let ghost counter = decryptor.counter();
    proof {
        lemma_body_stops(session, counter, rest@);
    }
    let framing = decode_framing(parameters, rest)?;
    let segment_length = framing.ciphertext_length();
    if rest.len() < segment_length {
        return Err(
            Error::InvalidCiphertextLength {
                actual: rest.len(),
                required: LengthRequirement::AtLeast(segment_length),
            },
        );
    }
    if framing.is_final() && segment_length != rest.len() {
        return Err(
            Error::InvalidCiphertextLength {
                actual: rest.len(),
                required: LengthRequirement::Exactly(segment_length),
            },
        );
    }
    let (segment, _) = rest.split_at(segment_length);
    let start: usize = plaintext.len();
    let end: usize = start + framing.plaintext_length();
    plaintext.resize(end, 0);
    let output = range_mut(plaintext.as_mut_slice(), start, end);
    assert(segment@ =~= rest@.take(segment_length as int));
    assert(segment@.take(SEGMENT_PREFIX_LENGTH as int) =~= rest@.take(
        SEGMENT_PREFIX_LENGTH as int,
    ));
    decryptor.decrypt_segment_into_framed(segment, framing, output)?;
    proof {
        let piece = session.authenticated(counter.next, framing.kind(), segment@)->Ok_0;
        assert(plaintext@.take(start as int) =~= old(plaintext)@);
        assert(plaintext@.skip(start as int) =~= piece);
        lemma_body_step(session, counter, rest@, segment@, piece);
    }
    Ok(segment_length)
}

} // verus!
