//! Laws on the outcome of segment operations, of starting a message, and of the
//! supply of nonces: what comes back from an operation, and what it leaves
//! behind, in terms of the wire format.

use crate::buffer::SegmentBuffer;
use crate::counter::SegmentCounter;
use crate::error::{Error, LengthRequirement};
use crate::key::Key;
use crate::layout::SegmentLayout;
use crate::message::message_error;
use crate::model::{header_iv, output_error, plaintext_error, Session};
use crate::online::{buffer_encrypted, Encryptor};
use crate::parameters::{Parameters, SegmentKind};
use crate::primitives::hmac_sha384;
use crate::state::{
    ciphertext_buffer_error, ciphertext_mismatch, decrypted_in_place, encrypted,
    encrypted_in_place, encrypted_into, encryption_error, first_error, framed_length_error,
    kept_around, nonces_used, opened_into, plaintext_buffer_error, plaintext_mismatch,
    segment_decrypted, segment_decrypted_in_place, segment_decrypted_into,
    segment_decrypted_raw, segment_encrypted, segment_encrypted_in_place,
    segment_encrypted_into, segment_encrypted_raw, start_error, start_inferred_error, started,
    storage_with, EncryptionState, NonceSupply,
};
use crate::wire::segment_read_error;
use crate::wire_format::{
    header_tag_input, lemma_decrypted_segment, lemma_derivations, lemma_encrypted_segment,
    lemma_header_format, lemma_numbers_are_big_endian, number32, segment_opens,
};
use vstd::prelude::*;

verus! {

/// `length` plaintext bytes make a segment of `kind`: a full one, or a final one
/// that is at most full.
pub open spec fn fits(parameters: Parameters, kind: SegmentKind, length: int) -> bool {
    &&& 0 <= length <= parameters.segment_length() - 32
    &&& kind is NonFinal ==> length == parameters.segment_length() - 32
}

/// What is refused before anything is encrypted: a plaintext that does not fit a
/// segment of its kind, and then an output that is too small for the plaintext
/// and 32 bytes more.
pub proof fn lemma_early_errors(
    parameters: Parameters,
    kind: SegmentKind,
    length: usize,
    space: usize,
)
    requires
        parameters.wf(),
    ensures
        ({
            let full = (parameters.segment_length() - 32) as usize;
            let early = encryption_error(parameters, kind, length as int, space as int);
            if fits(parameters, kind, length as int) {
                &&& plaintext_error(parameters, kind, length as int) is None
                &&& early == if space < length + 32 {
                    Some(
                        Error::OutputTooSmall {
                            actual: space,
                            required: (length + 32) as usize,
                        },
                    )
                } else {
                    None
                }
            } else {
                &&& early == plaintext_error(parameters, kind, length as int)
                &&& early == Some(
                    Error::InvalidPlaintextLength {
                        actual: length,
                        required: if kind is Final {
                            LengthRequirement::AtMost(full)
                        } else {
                            LengthRequirement::Exactly(full)
                        },
                    },
                )
            }
        }),
        output_error(space as int, length as int) is None <==> length <= space,
{
}

/// A segment is encrypted or refused: what is returned is a segment that opens
/// to the plaintext at its position and is decrypted to it, or the early error,
/// or the want of random bytes, or, for a position of two to the power of forty
/// or more, the segment limit.
pub proof fn lemma_encryption_outcome(
    session: Session,
    position: u64,
    kind: SegmentKind,
    plaintext: Seq<u8>,
    early: Option<Error>,
    result: Result<Seq<u8>, Error>,
)
    requires
        session.parameters.wf(),
        early is None ==> fits(session.parameters, kind, plaintext.len() as int),
        encrypted(session, position, kind, plaintext, early, result),
    ensures
        match result {
            Ok(segment) => {
                &&& early is None
                &&& position < 0x100_0000_0000
                &&& segment_opens(session, position, kind, segment, plaintext)
                &&& session.decrypted(position, kind, segment) == Ok::<Seq<u8>, Error>(plaintext)
            },
            Err(error) => match early {
                Some(first) => error == first,
                None => error == Error::RngFailure || (error == Error::SegmentLimit && position
                    >= 0x100_0000_0000),
            },
        },
{
    if let Ok(segment) = result {
        if early is None {
            lemma_encrypted_segment(session, position, kind, plaintext, segment);
            lemma_decrypted_segment(session, position, kind, segment, plaintext);
        }
    }
}

/// Encrypting into an output touches nothing beyond the segment: the segment
/// stands at its start, and what follows stays. An early error touches nothing,
/// the want of random bytes only the four bytes of the prefix, and the segment
/// limit those and the twelve of the nonce.
pub proof fn lemma_encryption_into_outcome(
    session: Session,
    position: u64,
    kind: SegmentKind,
    plaintext: Seq<u8>,
    early: Option<Error>,
    nonce: Seq<u8>,
    before: Seq<u8>,
    after: Seq<u8>,
    result: Result<usize, Error>,
)
    requires
        session.parameters.wf(),
        early is None ==> fits(session.parameters, kind, plaintext.len() as int) && plaintext.len()
            + 32 <= before.len(),
        nonce.len() == 12,
        encrypted_into(
            session,
            position,
            kind,
            plaintext,
            early,
            nonce,
            before,
            after,
            result,
        ),
    ensures
        after.len() == before.len(),
        match result {
            Ok(written) => {
                &&& early is None
                &&& written == plaintext.len() + 32
                &&& segment_opens(
                    session,
                    position,
                    kind,
                    after.take(written as int),
                    plaintext,
                )
                &&& session.decrypted(position, kind, after.take(written as int)) == Ok::<
                    Seq<u8>,
                    Error,
                >(plaintext)
                &&& after.skip(written as int) == before.skip(written as int)
            },
            Err(error) => match early {
                Some(first) => error == first && after == before,
                None => {
                    &&& number32(after, 0) == if kind is Final {
                        plaintext.len() + 32
                    } else {
                        0xffff_ffff
                    }
                    &&& if error == Error::RngFailure {
                        after.skip(4) == before.skip(4)
                    } else {
                        &&& error == Error::SegmentLimit
                        &&& position >= 0x100_0000_0000
                        &&& after.subrange(4, 16) == nonce
                        &&& after.skip(16) == before.skip(16)
                    }
                },
            },
        },
{
    let outcome = match result {
        Ok(written) => Ok::<Seq<u8>, Error>(after.take(written as int)),
        Err(error) => Err::<Seq<u8>, Error>(error),
    };
    lemma_encryption_outcome(session, position, kind, plaintext, early, outcome);
    if result is Err && early is None {
        let prefix = if kind is Final {
            (plaintext.len() + 32) as u32
        } else {
            0xffff_ffffu32
        };
        lemma_numbers_are_big_endian(prefix, 0, Seq::empty());
        assert(after.take(4) =~= crate::bytes::be32(prefix));
        assert(number32(after, 0) == number32(after.take(4), 0));
        if result == Err::<usize, Error>(Error::RngFailure) {
            assert(after.skip(4) =~= before.skip(4));
        } else {
            assert(after.subrange(4, 16) =~= nonce);
            assert(after.skip(16) =~= before.skip(16));
        }
    }
}

/// Encrypting in a buffer leaves the segment in it, and the rest of its storage
/// as it was. An early error leaves the buffer as it was, and any other leaves
/// it empty.
pub proof fn lemma_encryption_in_place_outcome(
    session: Session,
    position: u64,
    kind: SegmentKind,
    early: Option<Error>,
    nonce: Seq<u8>,
    before: SegmentBuffer,
    after: SegmentBuffer,
    result: Result<&[u8], Error>,
)
    requires
        session.parameters.wf(),
        before.wf(),
        early is None ==> before.plaintext_view() is Some && fits(
            session.parameters,
            kind,
            before.plaintext_view()->0.len() as int,
        ),
        encrypted_in_place(session, position, kind, early, nonce, before, after, result),
    ensures
        match result {
            Ok(segment) => {
                let plaintext = before.plaintext_view()->0;
                &&& early is None
                &&& position < 0x100_0000_0000
                &&& after.ciphertext_view() == Some(segment@)
                &&& segment@.len() == plaintext.len() + 32
                &&& after.raw().skip(segment@.len() as int) == before.raw().skip(
                    segment@.len() as int,
                )
                &&& segment_opens(session, position, kind, segment@, plaintext)
                &&& session.decrypted(position, kind, segment@) == Ok::<Seq<u8>, Error>(plaintext)
            },
            Err(error) => match early {
                Some(first) => error == first && after == before,
                None => {
                    &&& after.state() is Empty
                    &&& error == Error::RngFailure || (error == Error::SegmentLimit && position
                        >= 0x100_0000_0000)
                },
            },
        },
{
    if early is None {
        let plaintext = before.plaintext_view()->0;
        let outcome = match result {
            Ok(segment) => Ok::<Seq<u8>, Error>(segment@),
            Err(error) => Err::<Seq<u8>, Error>(error),
        };
        lemma_encryption_outcome(session, position, kind, plaintext, None, outcome);
        if let Ok(segment) = result {
            assert(after.raw().skip(segment@.len() as int) =~= before.raw().skip(
                segment@.len() as int,
            ));
        }
    }
}

/// Decrypting into an output touches nothing beyond the plaintext: that stands
/// at its start, and what follows stays. An error touches nothing but, where
/// authentication fails, the place of the plaintext.
pub proof fn lemma_decryption_into_outcome(
    early: Option<Error>,
    decrypted: Result<Seq<u8>, Error>,
    length: int,
    before: Seq<u8>,
    after: Seq<u8>,
    result: Result<usize, Error>,
)
    requires
        0 <= length <= usize::MAX,
        opened_into(early, decrypted, length, before, after, result),
    ensures
        match result {
            Ok(written) => {
                &&& early is None
                &&& written == length
                &&& decrypted == Ok::<Seq<u8>, Error>(after.take(length))
                &&& after.skip(length) == before.skip(length)
            },
            Err(error) => {
                &&& early is Some ==> early == Some(error) && after == before
                &&& early is None ==> decrypted == Err::<Seq<u8>, Error>(error)
                &&& error != Error::AuthenticationFailed ==> after == before
                &&& after.skip(length) == before.skip(length)
            },
        },
{
    if result is Ok {
        assert(after.take(length) =~= decrypted->Ok_0);
        assert(after.skip(length) =~= before.skip(length));
    }
}

/// What is encrypted into one output and decrypted into another comes back, and
/// everything else in both stays as it was.
pub proof fn lemma_into_round_trip(
    session: Session,
    position: u64,
    kind: SegmentKind,
    plaintext: Seq<u8>,
    nonce: Seq<u8>,
    space: Seq<u8>,
    sealed: Seq<u8>,
    written: usize,
    room: Seq<u8>,
    opened: Seq<u8>,
    result: Result<usize, Error>,
)
    requires
        session.parameters.wf(),
        fits(session.parameters, kind, plaintext.len() as int),
        plaintext.len() + 32 <= space.len() <= usize::MAX,
        nonce.len() == 12,
        encrypted_into(
            session,
            position,
            kind,
            plaintext,
            None,
            nonce,
            space,
            sealed,
            Ok(written),
        ),
        opened_into(
            None,
            session.decrypted(position, kind, sealed.take(written as int)),
            written - 32,
            room,
            opened,
            result,
        ),
    ensures
        result == Ok::<usize, Error>((written - 32) as usize),
        opened.take(written - 32) == plaintext,
        opened.skip(written - 32) == room.skip(written - 32),
        sealed.skip(written as int) == space.skip(written as int),
{
    lemma_encryption_into_outcome(
        session,
        position,
        kind,
        plaintext,
        None,
        nonce,
        space,
        sealed,
        Ok(written),
    );
    lemma_decryption_into_outcome(
        None,
        session.decrypted(position, kind, sealed.take(written as int)),
        written - 32,
        room,
        opened,
        result,
    );
}

/// Decrypting in a buffer gives what decryption gives. An early error leaves the
/// buffer as it was, and any other leaves it empty.
pub proof fn lemma_decryption_in_place_outcome(
    early: Option<Error>,
    decrypted: Result<Seq<u8>, Error>,
    before: SegmentBuffer,
    after: SegmentBuffer,
    result: Result<Seq<u8>, Error>,
)
    requires
        decrypted_in_place(early, decrypted, before, after, result),
    ensures
        match early {
            Some(error) => result == Err::<Seq<u8>, Error>(error) && after == before,
            None => {
                &&& result == decrypted
                &&& result matches Ok(plaintext) ==> plaintext.len() + 32
                    == before.ciphertext_view()->0.len()
                &&& result is Err ==> after.state() is Empty && after.parameters()
                    == before.parameters()
                &&& result is Err && result != Err::<Seq<u8>, Error>(Error::AuthenticationFailed)
                    ==> after.raw() == before.raw()
            },
        },
{
}

/// A segment of a layout takes a plaintext of its own length and a ciphertext 32
/// bytes longer, from a state of its own parameters, and no other.
pub proof fn lemma_segment_demands(parameters: Parameters, actual: usize, segment: SegmentLayout)
    requires
        segment.wf(),
    ensures
        plaintext_mismatch(parameters, actual as int, segment) == if segment.parameters()
            != parameters {
            Some(Error::InvalidParameters)
        } else if actual != segment.plaintext_length() {
            Some(
                Error::InvalidPlaintextLength {
                    actual,
                    required: LengthRequirement::Exactly(segment.plaintext_length()),
                },
            )
        } else {
            None
        },
        ciphertext_mismatch(parameters, actual as int, segment) == if segment.parameters()
            != parameters {
            Some(Error::InvalidParameters)
        } else if actual != segment.plaintext_length() + 32 {
            Some(
                Error::InvalidCiphertextLength {
                    actual,
                    required: LengthRequirement::Exactly(
                        (segment.plaintext_length() + 32) as usize,
                    ),
                },
            )
        } else {
            None
        },
        fits(segment.parameters(), segment.kind(), segment.plaintext_length() as int),
{
}

/// Segments take their nonces in turn from batches of 256: from where a batch is
/// drawn, the next 256 segments hold its twelve-byte pieces one after another,
/// so that none is used twice, and only then is another batch drawn.
pub proof fn lemma_nonces_in_turn(
    supplies: Seq<NonceSupply>,
    segments: Seq<Seq<u8>>,
    first: int,
    count: int,
)
    requires
        supplies.len() == segments.len() + 1,
        forall|k: int|
            0 <= k < segments.len() ==> #[trigger] supplies[k].wf() && nonces_used(
                supplies[k],
                supplies[k + 1],
                None,
                Ok(segments[k]),
            ),
        0 <= first,
        1 <= count <= 256,
        first + count <= segments.len(),
        supplies[first].is_spent(),
    ensures
        supplies[first + 1].batch.len() == 3072,
        supplies[first + count].batch == supplies[first + 1].batch,
        supplies[first + count].is_spent() <==> count == 256,
        forall|k: int|
            0 <= k < count ==> (#[trigger] segments[first + k]).subrange(4, 16)
                == supplies[first + 1].batch.subrange(12 * k, 12 * k + 12),
{
    lemma_nonces_so_far(supplies, segments, first, count);
}

/// The first nonces of a batch.
proof fn lemma_nonces_so_far(
    supplies: Seq<NonceSupply>,
    segments: Seq<Seq<u8>>,
    first: int,
    count: int,
)
    requires
        supplies.len() == segments.len() + 1,
        forall|k: int|
            0 <= k < segments.len() ==> #[trigger] supplies[k].wf() && nonces_used(
                supplies[k],
                supplies[k + 1],
                None,
                Ok(segments[k]),
            ),
        0 <= first,
        1 <= count <= 256,
        first + count <= segments.len(),
        supplies[first].is_spent(),
    ensures
        supplies[first + 1].batch.len() == 3072,
        supplies[first + count].batch == supplies[first + 1].batch,
        supplies[first + count].used == 12 * count,
        forall|k: int|
            0 <= k < count ==> (#[trigger] segments[first + k]).subrange(4, 16)
                == supplies[first + 1].batch.subrange(12 * k, 12 * k + 12),
    decreases count,
{
    assert(supplies[first].wf());
    if count > 1 {
        lemma_nonces_so_far(supplies, segments, first, count - 1);
        assert(supplies[first + count - 1].wf());
    }
}

/// A message that is started is accepted: under the same key bytes and
/// associated data, its header gives its parameters and IV back, and starting to
/// decrypt from it succeeds, with the parameters demanded or inferred.
pub proof fn lemma_started_message_is_accepted(
    key: Key,
    aad: Seq<u8>,
    parameters: Parameters,
    iv: Seq<u8>,
    provider: crate::provider::Provider,
    seeded: bool,
    state: EncryptionState,
    header: crate::header::Header,
)
    requires
        key.resolved() is Some,
        iv.len() == 32,
        started(key@, aad, parameters, iv, provider, seeded, state, header),
    ensures
        start_error(key, aad, parameters, header@) is None,
        start_inferred_error(key, aad, header@) is None,
        Parameters::decoding(header@.take(10)) == Some(parameters),
        header_iv(header@) == iv,
        state.session().iv == iv,
        state.session().aad == aad,
        state.session().parameters == parameters,
{
    lemma_header_format(key@, parameters, iv, aad);
    parameters.lemma_encoding_round_trip();
}

/// What stops decryption from starting: a key with no provider, then a header
/// whose first ten bytes are not the parameters that are demanded, or are none,
/// and then a tag that the key, the 42 bytes before it, and all of the
/// associated data do not account for.
pub proof fn lemma_start_errors(
    key: Key,
    aad: Seq<u8>,
    parameters: Parameters,
    header: crate::header::Header,
)
    requires
        parameters.wf(),
    ensures
        ({
            let bytes = header@;
            start_error(key, aad, parameters, bytes) == if key.resolved() is None {
                Some(Error::ProviderSelectionRequired)
            } else if bytes.take(10) != parameters.encoding() {
                Some(Error::InvalidHeaderParameters)
            } else if bytes.skip(42) != hmac_sha384(
                key@,
                header_tag_input(parameters, bytes.subrange(10, 42), aad),
            ).take(32) {
                Some(Error::InvalidHeaderTag)
            } else {
                None
            }
        }),
        start_inferred_error(key, aad, header@) == if key.resolved() is None {
            Some(Error::ProviderSelectionRequired)
        } else {
            match Parameters::decoding(header@.take(10)) {
                None => Some(Error::InvalidHeaderParameters),
                Some(declared) => start_error(key, aad, declared, header@),
            }
        },
{
    let bytes = header@;
    header.lemma_length();
    let iv = bytes.subrange(10, 42);
    let session = crate::model::session(key@, parameters, iv, aad);
    lemma_derivations(key@, parameters, iv, aad, session, 0);
    let expected = crate::model::header(key@, parameters, iv, aad);
    let tag = crate::model::header_tag(key@, parameters, iv, aad);
    assert(header_iv(bytes) =~= iv);
    assert(expected.skip(42) =~= tag);
    assert(bytes =~= bytes.take(10) + iv + bytes.skip(42));
}

/// A key works with the provider that it is bound to, and, as this build holds
/// three providers, with none where it is bound to none.
pub proof fn lemma_key_resolution(key: Key)
    ensures
        key.resolved() == key.bound(),
{
}

/// A plaintext can be encrypted as one message unless it overfills two to the
/// power of forty segments, or its message is longer than a 64-bit number or
/// memory allows.
pub proof fn lemma_message_limits(parameters: Parameters, length: usize, segments: int)
    requires
        parameters.wf(),
        1 <= segments,
        length <= segments * (parameters.segment_length() - 32),
        segments > 1 ==> (segments - 1) * (parameters.segment_length() - 32) < length,
    ensures
        message_error(parameters, length) == if length > 0x100_0000_0000 * (
        parameters.segment_length() - 32) {
            Some(Error::SegmentLimit)
        } else if 74 + length + 32 * segments > 0xffff_ffff_ffff_ffff || 74 + length + 32
            * segments > usize::MAX {
            Some(Error::LengthOverflow)
        } else {
            None
        },
{
    parameters.lemma_plaintext_layout_limits(length as u64, segments);
    parameters.lemma_fewest_segments(length as int, segments);
}

/// Of two errors the first counts, a buffer is refused for its parameters before
/// it is for what it holds, and a segment for any length but the declared one.
pub proof fn lemma_order_of_errors(
    first: Option<Error>,
    second: Option<Error>,
    parameters: Parameters,
    buffer: SegmentBuffer,
    actual: usize,
    expected: usize,
)
    ensures
        first is Some ==> first_error(first, second) == first,
        first is None ==> first_error(first, second) == second,
        plaintext_buffer_error(parameters, buffer) == if buffer.parameters() != parameters {
            Some(Error::InvalidParameters)
        } else if buffer.plaintext_view() is None {
            Some(Error::InvalidBufferState)
        } else {
            None
        },
        ciphertext_buffer_error(parameters, buffer) == if buffer.parameters() != parameters {
            Some(Error::InvalidParameters)
        } else if buffer.ciphertext_view() is None {
            Some(Error::InvalidBufferState)
        } else {
            None
        },
        framed_length_error(actual as int, expected as int) == if actual != expected {
            Some(
                Error::InvalidCiphertextLength {
                    actual,
                    required: LengthRequirement::Exactly(expected),
                },
            )
        } else {
            None
        },
        segment_read_error(actual, expected) == framed_length_error(actual as int, expected as int),
{
}

/// A buffer holds its plaintext from byte 16 on and its ciphertext from the
/// start, and never both.
pub proof fn lemma_buffer_places(buffer: SegmentBuffer)
    requires
        buffer.wf(),
    ensures
        buffer.raw().len() == buffer.parameters().segment_length(),
        buffer.plaintext_view() matches Some(plaintext) ==> {
            &&& buffer.ciphertext_view() is None
            &&& plaintext.len() <= buffer.parameters().segment_length() - 32
            &&& plaintext == buffer.raw().subrange(16, 16int + plaintext.len())
        },
        buffer.ciphertext_view() matches Some(ciphertext) ==> {
            &&& 32 <= ciphertext.len() <= buffer.parameters().segment_length()
            &&& ciphertext == buffer.raw().take(ciphertext.len() as int)
        },
{
}

/// Nothing is changed around a payload: the 16 bytes before it and all that
/// follows it stay as they were.
pub proof fn lemma_payload_is_all_that_changes(
    storage: Seq<u8>,
    plaintext: Seq<u8>,
    after: Seq<u8>,
    end: int,
)
    requires
        16 + plaintext.len() <= storage.len(),
    ensures
        ({
            let changed = storage_with(storage, plaintext.len() as int, plaintext);
            &&& changed.len() == storage.len()
            &&& changed.take(16) == storage.take(16)
            &&& changed.subrange(16, 16int + plaintext.len()) == plaintext
            &&& changed.skip(16int + plaintext.len()) == storage.skip(16int + plaintext.len())
        }),
        kept_around(storage, after, end) <==> after.take(16) == storage.take(16) && after.skip(end)
            == storage.skip(end),
{
    let changed = storage_with(storage, plaintext.len() as int, plaintext);
    assert(changed.take(16) =~= storage.take(16));
    assert(changed.subrange(16, 16int + plaintext.len()) =~= plaintext);
    assert(changed.skip(16int + plaintext.len()) =~= storage.skip(16int + plaintext.len()));
}

/// What happens to the supply of nonces: an operation that is refused early
/// leaves it alone, one that fails for want of random bytes had no nonce left
/// and no seeded generator and has taken none, and any other has taken the next
/// twelve bytes of the batch, or the first twelve of a new one.
pub proof fn lemma_supply_outcome(
    before: NonceSupply,
    after: NonceSupply,
    early: Option<Error>,
    result: Result<Seq<u8>, Error>,
)
    requires
        before.wf(),
        nonces_used(before, after, early, result),
    ensures
        after.provider == before.provider,
        early is Some ==> after == before,
        early is None && result == Err::<Seq<u8>, Error>(Error::RngFailure) ==> {
            &&& before.used == before.batch.len()
            &&& !before.seeded
            &&& after.used == after.batch.len()
        },
        early is None && result != Err::<Seq<u8>, Error>(Error::RngFailure) ==> {
            &&& after.batch.len() == 3072
            &&& before.used == before.batch.len() ==> after.used == 12
            &&& before.used < before.batch.len() ==> after.batch == before.batch && after.used
                == before.used + 12
            &&& result matches Ok(segment) ==> segment.subrange(4, 16) == after.batch.subrange(
                after.used - 12,
                after.used,
            )
        },
{
}

/// The nonce of a final segment is the next one, where there is one.
pub proof fn lemma_next_nonce(encryptor: Encryptor, nonce: Seq<u8>)
    requires
        encryptor.wf(),
        encryptor.next_nonce(nonce),
    ensures
        encryptor.nonces().used < 3072 ==> nonce == encryptor.nonces().batch.subrange(
            encryptor.nonces().used,
            encryptor.nonces().used + 12,
        ),
{
    encryptor.lemma_next_position();
}

/// Encrypting in order in a buffer refuses a buffer of other parameters or
/// without plaintext, and leaves it as it was; a plaintext of the wrong length
/// it refuses too, and leaves the buffer empty, with the bytes of its storage.
pub proof fn lemma_buffer_encryption_refusals(
    session: Session,
    counter: SegmentCounter,
    kind: SegmentKind,
    nonce: Seq<u8>,
    before: SegmentBuffer,
    after: SegmentBuffer,
    result: Result<&[u8], Error>,
)
    requires
        session.parameters.wf(),
        counter.wf(),
        !counter.closed,
        before.wf(),
        buffer_encrypted(session, counter, kind, nonce, before, after, result),
    ensures
        kind is NonFinal && counter.next == 0xff_ffff_ffff ==> result == Err::<&[u8], Error>(
            Error::SegmentLimit,
        ) && after == before,
        kind is Final || counter.next < 0xff_ffff_ffff ==> if before.parameters()
            != session.parameters {
            result == Err::<&[u8], Error>(Error::InvalidParameters) && after == before
        } else if before.plaintext_view() is None {
            result == Err::<&[u8], Error>(Error::InvalidBufferState) && after == before
        } else if !fits(session.parameters, kind, before.plaintext_view()->0.len() as int) {
            &&& result == Err::<&[u8], Error>(
                Error::InvalidPlaintextLength {
                    actual: before.plaintext_view()->0.len() as usize,
                    required: if kind is Final {
                        LengthRequirement::AtMost((session.parameters.segment_length() - 32) as usize)
                    } else {
                        LengthRequirement::Exactly(
                            (session.parameters.segment_length() - 32) as usize,
                        )
                    },
                },
            )
            &&& after.state() is Empty
            &&& after.raw() == before.raw()
        } else {
            match result {
                Ok(segment) => {
                    &&& after.ciphertext_view() == Some(segment@)
                    &&& session.decrypted(counter.next, kind, segment@) == Ok::<Seq<u8>, Error>(
                        before.plaintext_view()->0,
                    )
                },
                Err(error) => error == Error::RngFailure && after.state() is Empty,
            }
        },
{
    counter.lemma_positions_count_up(kind);
    if (kind is Final || counter.next < 0xff_ffff_ffff) && before.parameters()
        == session.parameters && before.plaintext_view() is Some && fits(
        session.parameters,
        kind,
        before.plaintext_view()->0.len() as int,
    ) {
        lemma_encryption_in_place_outcome(
            session,
            counter.next,
            kind,
            None,
            nonce,
            before,
            after,
            result,
        );
    }
}

/// A segment of a layout decrypts exactly where it belongs to the session's
/// parameters, has the length of the layout, and opens at the layout's position
/// and with its kind; and whether it is decrypted to a new buffer, into an
/// output with room for it, in a segment buffer, or in storage that it stands at
/// the start of, the same plaintext or the same error comes back.
pub proof fn lemma_ways_of_decrypting_agree(
    session: Session,
    ciphertext: Seq<u8>,
    segment: SegmentLayout,
    plaintext: Seq<u8>,
    room: Seq<u8>,
    output: Seq<u8>,
    into: Result<usize, Error>,
    before: SegmentBuffer,
    after: SegmentBuffer,
    in_place: Result<Seq<u8>, Error>,
    storage: Seq<u8>,
)
    requires
        session.parameters.wf(),
        segment.wf(),
        ciphertext.len() <= usize::MAX,
        segment.plaintext_length() <= room.len(),
        segment_decrypted_into(session, ciphertext, segment, room, output, into),
        before.wf(),
        before.ciphertext_view() == Some(ciphertext),
        before.parameters() == session.parameters,
        segment_decrypted_in_place(session, segment, before, after, in_place),
        storage.len() >= ciphertext.len(),
        storage.take(ciphertext.len() as int) == ciphertext,
    ensures
        segment_decrypted(session, ciphertext, segment) == Ok::<Seq<u8>, Error>(plaintext) <==> {
            &&& segment.parameters() == session.parameters
            &&& ciphertext.len() == segment.plaintext_length() + 32
            &&& segment_opens(session, segment.position(), segment.kind(), ciphertext, plaintext)
        },
        in_place == segment_decrypted(session, ciphertext, segment),
        match segment_decrypted(session, ciphertext, segment) {
            Ok(given) => {
                &&& into == Ok::<usize, Error>(segment.plaintext_length())
                &&& output == given + room.skip(given.len() as int)
            },
            Err(error) => {
                &&& into == Err::<usize, Error>(error)
                &&& error != Error::AuthenticationFailed ==> output == room
            },
        },
        ciphertext.len() == segment.ciphertext_length() ==> segment_decrypted_raw(
            session,
            storage,
            segment,
        ) == segment_decrypted(session, ciphertext, segment),
{
    lemma_decrypted_segment(
        session,
        segment.position(),
        segment.kind(),
        ciphertext,
        plaintext,
    );
    if let Ok(given) = segment_decrypted(session, ciphertext, segment) {
        lemma_decrypted_segment(
            session,
            segment.position(),
            segment.kind(),
            ciphertext,
            given,
        );
    }
}

/// What is encrypted as a segment of a layout is decrypted as that segment:
/// whether it is encrypted to a new buffer, into an output, in a segment buffer,
/// or in storage that holds the plaintext from byte 16 on, the segment that
/// comes back decrypts to the plaintext.
pub proof fn lemma_ways_of_encrypting_agree(
    session: Session,
    plaintext: Seq<u8>,
    segment: SegmentLayout,
    result: Result<Seq<u8>, Error>,
    nonce: Seq<u8>,
    room: Seq<u8>,
    output: Seq<u8>,
    into: Result<usize, Error>,
    before: SegmentBuffer,
    after: SegmentBuffer,
    in_place: Result<&[u8], Error>,
    storage: Seq<u8>,
    sealed: Seq<u8>,
    raw: Result<usize, Error>,
)
    requires
        session.parameters.wf(),
        segment.wf(),
        nonce.len() == 12,
        plaintext.len() <= usize::MAX,
        room.len() <= usize::MAX,
        storage.len() <= usize::MAX,
        segment_encrypted(session, plaintext, segment, result),
        segment_encrypted_into(session, plaintext, segment, nonce, room, output, into),
        before.wf(),
        before.plaintext_view() == Some(plaintext),
        segment_encrypted_in_place(session, segment, nonce, before, after, in_place),
        segment_encrypted_raw(session, segment, nonce, storage, sealed, raw),
    ensures
        result matches Ok(bytes) ==> segment_decrypted(session, bytes, segment) == Ok::<
            Seq<u8>,
            Error,
        >(plaintext),
        into matches Ok(written) ==> {
            &&& written == plaintext.len() + 32
            &&& segment_decrypted(session, output.take(written as int), segment) == Ok::<
                Seq<u8>,
                Error,
            >(plaintext)
            &&& output.skip(written as int) == room.skip(written as int)
        },
        in_place matches Ok(bytes) ==> {
            &&& after.ciphertext_view() == Some(bytes@)
            &&& segment_decrypted(session, bytes@, segment) == Ok::<Seq<u8>, Error>(plaintext)
        },
        raw matches Ok(written) ==> {
            &&& written == segment.plaintext_length() + 32
            &&& segment_decrypted(session, sealed.take(written as int), segment) == Ok::<
                Seq<u8>,
                Error,
            >(storage.subrange(16, 16 + segment.plaintext_length()))
            &&& sealed.skip(written as int) == storage.skip(written as int)
        },
        segment.parameters() == session.parameters && plaintext.len() == segment.plaintext_length()
            ==> (result matches Err(error) ==> error == Error::RngFailure),
        segment.parameters() != session.parameters ==> result == Err::<Seq<u8>, Error>(
            Error::InvalidParameters,
        ) && into == Err::<usize, Error>(Error::InvalidParameters) && in_place == Err::<
            &[u8],
            Error,
        >(Error::InvalidParameters) && raw == Err::<usize, Error>(Error::InvalidParameters),
{
    let position = segment.position();
    let kind = segment.kind();
    let mismatch = plaintext_mismatch(session.parameters, plaintext.len() as int, segment);
    lemma_segment_demands(session.parameters, plaintext.len() as usize, segment);
    lemma_encryption_outcome(session, position, kind, plaintext, mismatch, result);
    lemma_encryption_into_outcome(
        session,
        position,
        kind,
        plaintext,
        first_error(
            mismatch,
            output_error(room.len() as int, segment.ciphertext_length() as int),
        ),
        nonce,
        room,
        output,
        into,
    );
    lemma_encryption_in_place_outcome(
        session,
        position,
        kind,
        first_error(mismatch, plaintext_buffer_error(session.parameters, before)),
        nonce,
        before,
        after,
        in_place,
    );
    let early = first_error(
        if segment.parameters() != session.parameters {
            Some(Error::InvalidParameters)
        } else {
            None
        },
        output_error(storage.len() as int, segment.ciphertext_length() as int),
    );
    let held = storage.subrange(16, 16 + segment.plaintext_length());
    lemma_encryption_into_outcome(
        session,
        position,
        kind,
        held,
        early,
        nonce,
        storage,
        sealed,
        raw,
    );
}

} // verus!
