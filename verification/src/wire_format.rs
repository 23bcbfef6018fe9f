//! The wire format, written out byte by byte: laws that say where every part
//! of a message stands, how its numbers are written, and what HMAC-SHA-384 and
//! AES-256-GCM are given to make its keys, tags, and segments.

use crate::bytes::{be32, be64, from_be32};
use crate::counter::SegmentCounter;
use crate::error::{Error, LengthRequirement};
use crate::layout::SegmentFraming;
use crate::message::{
    body_decrypted, lemma_body_step, lemma_body_stops, lemma_message_round_trip,
    lemma_segment_of_body, message_decrypted, message_encrypted, segment_length_at,
};
use crate::model::{
    header, header_iv, header_tag, segment_aad, session, Session, HEADER_TAG_PURPOSE,
    MESSAGE_KEY_PURPOSE, SEGMENT_KEY_PURPOSE,
};
use crate::online::{segment_kind, segment_prefix_value};
use crate::parameters::{Parameters, SegmentKind, SEGMENT_OVERHEAD};
use crate::primitives::{
    aes_256_gcm, aes_256_gcm_open, aes_256_gcm_seals, hmac_sha384, lemma_opened_length,
};
use vstd::prelude::*;

verus! {

/// The number that the four bytes from `at` on write, most significant byte
/// first.
pub open spec fn number32(bytes: Seq<u8>, at: int) -> int {
    bytes[at] * 0x100_0000 + bytes[at + 1] * 0x1_0000 + bytes[at + 2] * 0x100 + bytes[at + 3]
}

/// The number that the eight bytes from `at` on write, most significant byte
/// first.
pub open spec fn number64(bytes: Seq<u8>, at: int) -> int {
    number32(bytes, at) * 0x1_0000_0000 + number32(bytes, at + 4)
}

/// Four bytes are fixed by the number that they write.
proof fn lemma_number32_injective(left: Seq<u8>, right: Seq<u8>, at: int)
    requires
        number32(left, at) == number32(right, at),
    ensures
        left[at] == right[at],
        left[at + 1] == right[at + 1],
        left[at + 2] == right[at + 2],
        left[at + 3] == right[at + 3],
{
}

/// Eight bytes are fixed by the number that they write.
proof fn lemma_number64_injective(left: Seq<u8>, right: Seq<u8>, at: int)
    requires
        number64(left, at) == number64(right, at),
    ensures
        forall|i: int| at <= i < at + 8 ==> left[i] == right[i],
{
    assert(0 <= number32(left, at + 4) < 0x1_0000_0000);
    assert(0 <= number32(right, at + 4) < 0x1_0000_0000);
    lemma_number32_injective(left, right, at);
    lemma_number32_injective(left, right, at + 4);
}

/// Numbers are written most significant byte first: read that way, the bytes
/// that encode a number are the number, in four bytes and in eight, and four
/// bytes decode to what they read as.
pub proof fn lemma_numbers_are_big_endian(narrow: u32, wide: u64, bytes: Seq<u8>)
    ensures
        be32(narrow).len() == 4,
        number32(be32(narrow), 0) == narrow,
        ({
            let written = be32(narrow);
            written[0] * 0x100_0000 + written[1] * 0x1_0000 + written[2] * 0x100 + written[3]
        }) == narrow,
        be64(wide).len() == 8,
        number64(be64(wide), 0) == wide,
        ({
            let written = be64(wide);
            written[0] * 0x100_0000_0000_0000 + written[1] * 0x1_0000_0000_0000 + written[2]
                * 0x100_0000_0000 + written[3] * 0x1_0000_0000 + written[4] * 0x100_0000
                + written[5] * 0x1_0000 + written[6] * 0x100 + written[7]
        }) == wide,
        from_be32(bytes) == number32(bytes, 0),
        from_be32(bytes) == bytes[0] * 0x100_0000 + bytes[1] * 0x1_0000 + bytes[2] * 0x100
            + bytes[3],
{
    let high = (wide / 0x1_0000_0000) as u32;
    let low = (wide % 0x1_0000_0000) as u32;
    assert(number32(be32(high), 0) == high);
    assert(number32(be32(low), 0) == low);
    assert(number32(be64(wide), 0) == high);
    assert(number32(be64(wide), 4) == low);
}

/// A parameter set is written in ten bytes: two zeros that name the
/// algorithms, the segment length, and the length of the IV, which is 32.
pub proof fn lemma_parameters_format(parameters: Parameters)
    requires
        parameters.wf(),
    ensures
        64 <= parameters.segment_length() < 0xffff_ffff,
        parameters.payload_length() == parameters.segment_length() - 32,
        parameters.encoding().len() == 10,
        parameters.encoding()[0] == 0,
        parameters.encoding()[1] == 0,
        number32(parameters.encoding(), 2) == parameters.segment_length(),
        number32(parameters.encoding(), 6) == 32,
{
    let length = parameters.segment_length() as u32;
    lemma_numbers_are_big_endian(length, 0, Seq::empty());
    lemma_numbers_are_big_endian(32, 0, Seq::empty());
    assert(number32(parameters.encoding(), 2) == number32(be32(length), 0));
    assert(number32(parameters.encoding(), 6) == number32(be32(32), 0));
}

/// Ten bytes are a parameter set exactly where they begin with two zeros, name
/// a segment length of at least 64 and less than the greatest 32-bit number,
/// and end with an IV length of 32; the set then has that segment length.
pub proof fn lemma_parameters_are_decoded(encoded: Seq<u8>)
    requires
        encoded.len() == 10,
    ensures
        Parameters::decoding(encoded) is Some <==> {
            &&& encoded[0] == 0
            &&& encoded[1] == 0
            &&& 64 <= number32(encoded, 2) < 0xffff_ffff
            &&& number32(encoded, 6) == 32
        },
        Parameters::decoding(encoded) matches Some(parameters) ==> {
            &&& parameters.wf()
            &&& parameters.segment_length() == number32(encoded, 2)
        },
{
    Parameters::lemma_decoding(encoded);
    if Parameters::decoding(encoded) is Some {
        lemma_parameters_format(Parameters::decoding(encoded)->0);
    }
    if encoded[0] == 0 && encoded[1] == 0 && 64 <= number32(encoded, 2) < 0xffff_ffff && number32(
        encoded,
        6,
    ) == 32 {
        let parameters = Parameters::lemma_every_segment_length(number32(encoded, 2) as u32);
        lemma_parameters_format(parameters);
        lemma_number32_injective(parameters.encoding(), encoded, 2);
        lemma_number32_injective(parameters.encoding(), encoded, 6);
        assert(parameters.encoding() =~= encoded);
        parameters.lemma_encoding_round_trip();
    }
}

/// What HMAC-SHA-384 is given for the tag of a header.
pub open spec fn header_tag_input(parameters: Parameters, iv: Seq<u8>, aad: Seq<u8>) -> Seq<u8> {
    parameters.encoding() + iv + seq![
        0x48u8,
        0x45u8,
        0x41u8,
        0x44u8,
        0x45u8,
        0x52u8,
        0x5fu8,
        0x54u8,
        0x41u8,
        0x47u8,
        0x3au8,
    ] + aad + seq![1u8]
}

/// What HMAC-SHA-384 is given for a message key.
pub open spec fn message_key_input(parameters: Parameters, iv: Seq<u8>, aad: Seq<u8>) -> Seq<u8> {
    parameters.encoding() + iv + seq![
        0x4du8,
        0x45u8,
        0x53u8,
        0x53u8,
        0x41u8,
        0x47u8,
        0x45u8,
        0x5fu8,
        0x4bu8,
        0x45u8,
        0x59u8,
        0x3au8,
    ] + aad + seq![1u8]
}

/// What HMAC-SHA-384 is given for the key of the segment at `position`.
pub open spec fn segment_key_input(
    parameters: Parameters,
    iv: Seq<u8>,
    position: u64,
    aad: Seq<u8>,
) -> Seq<u8> {
    parameters.encoding() + iv + seq![0x44u8, 0x45u8, 0x4bu8, 0x3au8] + be64(
        (position / 0x10_0000 * 0x10_0000) as u64,
    ) + aad + seq![1u8]
}

/// Keys and tags are one block of HKDF-Expand: the tag of a header is the first
/// 32 bytes of what HMAC-SHA-384 under the application's key makes of its input,
/// the message key is the first 48 bytes, and the key of a segment is the first
/// 32 bytes under the message key.
pub proof fn lemma_derivations(
    key: Seq<u8>,
    parameters: Parameters,
    iv: Seq<u8>,
    aad: Seq<u8>,
    any: Session,
    position: u64,
)
    ensures
        header_tag(key, parameters, iv, aad) == hmac_sha384(
            key,
            header_tag_input(parameters, iv, aad),
        ).take(32),
        session(key, parameters, iv, aad) == (Session {
            parameters,
            message_key: hmac_sha384(key, message_key_input(parameters, iv, aad)).take(48),
            iv,
            aad,
        }),
        any.segment_key(position) == hmac_sha384(
            any.message_key,
            segment_key_input(any.parameters, any.iv, position, any.aad),
        ).take(32),
{
    let tag_info = parameters.encoding() + iv + HEADER_TAG_PURPOSE@ + aad;
    assert(tag_info.push(1) =~= header_tag_input(parameters, iv, aad));
    let key_info = parameters.encoding() + iv + MESSAGE_KEY_PURPOSE@ + aad;
    assert(key_info.push(1) =~= message_key_input(parameters, iv, aad));
    let key_position = Parameters::key_position(position);
    Parameters::lemma_keys_rotate(position, position);
    let info = any.parameters.encoding() + any.iv + SEGMENT_KEY_PURPOSE@ + be64(key_position)
        + any.aad;
    assert(info.push(1) =~= segment_key_input(any.parameters, any.iv, position, any.aad));
}

/// The parts of what HMAC-SHA-384 is given.
proof fn lemma_input_parts(encoding: Seq<u8>, iv: Seq<u8>, purpose: Seq<u8>, aad: Seq<u8>)
    requires
        encoding.len() == 10,
        iv.len() == 32,
    ensures
        ({
            let input = encoding + iv + purpose + aad + seq![1u8];
            let start = 42 + purpose.len() as int;
            &&& input.len() == start + aad.len() + 1
            &&& input.take(10) == encoding
            &&& input.subrange(10, 42) == iv
            &&& input.subrange(42, start) == purpose
            &&& input.skip(start) == aad.push(1)
        }),
{
    let input = encoding + iv + purpose + aad + seq![1u8];
    let start = 42 + purpose.len() as int;
    assert(input.take(10) =~= encoding);
    assert(input.subrange(10, 42) =~= iv);
    assert(input.subrange(42, start) =~= purpose);
    assert(input.skip(start) =~= aad.push(1));
}

/// All of the associated data is bound: what HMAC-SHA-384 is given for the tag
/// of a header, for the message key, and for the key of a segment holds the
/// parameters, the IV, and, up to its last byte, the complete associated data
/// of whatever length. The input for the key of a segment also holds the first
/// position of the 1,048,576 that share the key.
pub proof fn lemma_inputs_hold_all_associated_data(
    parameters: Parameters,
    iv: Seq<u8>,
    position: u64,
    aad: Seq<u8>,
)
    requires
        iv.len() == 32,
    ensures
        ({
            let input = header_tag_input(parameters, iv, aad);
            &&& input.len() == 10 + 32 + 11 + aad.len() + 1
            &&& input.take(10) == parameters.encoding()
            &&& input.subrange(10, 42) == iv
            &&& input.skip(53) == aad.push(1)
        }),
        ({
            let input = message_key_input(parameters, iv, aad);
            &&& input.len() == 10 + 32 + 12 + aad.len() + 1
            &&& input.take(10) == parameters.encoding()
            &&& input.subrange(10, 42) == iv
            &&& input.skip(54) == aad.push(1)
        }),
        ({
            let input = segment_key_input(parameters, iv, position, aad);
            &&& input.len() == 10 + 32 + 4 + 8 + aad.len() + 1
            &&& input.take(10) == parameters.encoding()
            &&& input.subrange(10, 42) == iv
            &&& number64(input, 46) % 0x10_0000 == 0
            &&& number64(input, 46) <= position < number64(input, 46) + 0x10_0000
            &&& input.skip(54) == aad.push(1)
        }),
{
    let first = (position / 0x10_0000 * 0x10_0000) as u64;
    let encoding = parameters.encoding();
    assert(encoding.len() == 10);
    assert(first % 0x10_0000 == 0 && first <= position < first + 0x10_0000);
    let tag_purpose = HEADER_TAG_PURPOSE@;
    let key_purpose = MESSAGE_KEY_PURPOSE@;
    let segment_purpose = seq![0x44u8, 0x45u8, 0x4bu8, 0x3au8] + be64(first);
    lemma_input_parts(encoding, iv, tag_purpose, aad);
    assert(header_tag_input(parameters, iv, aad) =~= encoding + iv + tag_purpose + aad + seq![1u8]);
    lemma_input_parts(encoding, iv, key_purpose, aad);
    assert(message_key_input(parameters, iv, aad) =~= encoding + iv + key_purpose + aad
        + seq![1u8]);
    lemma_input_parts(encoding, iv, segment_purpose, aad);
    let input = segment_key_input(parameters, iv, position, aad);
    assert(input =~= encoding + iv + segment_purpose + aad + seq![1u8]);
    lemma_numbers_are_big_endian(0, first, Seq::empty());
    assert(input.subrange(42, 54).subrange(4, 12) =~= be64(first));
    assert(number64(input, 46) == number64(input.subrange(42, 54).subrange(4, 12), 0));
}

/// Different associated data, IVs, or segment lengths never meet: two messages
/// for which HMAC-SHA-384 is given one input, for whichever purpose, agree in
/// all three, and two segments that share the input for their key lie in one
/// rotation interval. The three purposes never share an input.
pub proof fn lemma_inputs_are_distinct(
    parameters: Parameters,
    iv: Seq<u8>,
    position: u64,
    aad: Seq<u8>,
    other_parameters: Parameters,
    other_iv: Seq<u8>,
    other_position: u64,
    other_aad: Seq<u8>,
)
    requires
        parameters.wf(),
        other_parameters.wf(),
        iv.len() == 32,
        other_iv.len() == 32,
    ensures
        header_tag_input(parameters, iv, aad) == header_tag_input(
            other_parameters,
            other_iv,
            other_aad,
        ) <==> parameters == other_parameters && iv == other_iv && aad == other_aad,
        message_key_input(parameters, iv, aad) == message_key_input(
            other_parameters,
            other_iv,
            other_aad,
        ) <==> parameters == other_parameters && iv == other_iv && aad == other_aad,
        segment_key_input(parameters, iv, position, aad) == segment_key_input(
            other_parameters,
            other_iv,
            other_position,
            other_aad,
        ) <==> parameters == other_parameters && iv == other_iv && aad == other_aad && position
            / 0x10_0000 == other_position / 0x10_0000,
        header_tag_input(parameters, iv, aad) != message_key_input(
            other_parameters,
            other_iv,
            other_aad,
        ),
        header_tag_input(parameters, iv, aad) != segment_key_input(
            other_parameters,
            other_iv,
            other_position,
            other_aad,
        ),
        message_key_input(parameters, iv, aad) != segment_key_input(
            other_parameters,
            other_iv,
            other_position,
            other_aad,
        ),
{
    lemma_inputs_hold_all_associated_data(parameters, iv, position, aad);
    lemma_inputs_hold_all_associated_data(other_parameters, other_iv, other_position, other_aad);
    assert(aad.push(1).drop_last() =~= aad);
    assert(other_aad.push(1).drop_last() =~= other_aad);
    if parameters.encoding() == other_parameters.encoding() {
        Parameters::lemma_encoding_injective(parameters, other_parameters);
    }
    assert(header_tag_input(parameters, iv, aad)[42] == 0x48);
    assert(message_key_input(parameters, iv, aad)[42] == 0x4d);
    assert(message_key_input(other_parameters, other_iv, other_aad)[42] == 0x4d);
    assert(segment_key_input(other_parameters, other_iv, other_position, other_aad)[42] == 0x44);
}

/// A header is 42 bytes that anyone can read, namely the parameters and the IV,
/// followed by a tag that binds them and all of the associated data to the key.
pub proof fn lemma_header_format(
    key: Seq<u8>,
    parameters: Parameters,
    iv: Seq<u8>,
    aad: Seq<u8>,
)
    requires
        parameters.wf(),
        iv.len() == 32,
    ensures
        ({
            let bytes = header(key, parameters, iv, aad);
            &&& bytes.take(10) == parameters.encoding()
            &&& bytes[0] == 0 && bytes[1] == 0
            &&& number32(bytes, 2) == parameters.segment_length()
            &&& number32(bytes, 6) == 32
            &&& bytes.subrange(10, 42) == iv
            &&& header_iv(bytes) == iv
            &&& bytes.skip(42) == hmac_sha384(key, header_tag_input(parameters, iv, aad)).take(32)
        }),
{
    let bytes = header(key, parameters, iv, aad);
    lemma_parameters_format(parameters);
    lemma_derivations(key, parameters, iv, aad, session(key, parameters, iv, aad), 0);
    assert(bytes.take(10) =~= parameters.encoding());
    assert(forall|i: int| 0 <= i < 10 ==> bytes[i] == #[trigger] parameters.encoding()[i]);
    assert(bytes.subrange(10, 42) =~= iv);
    assert(bytes.skip(42) =~= header_tag(key, parameters, iv, aad));
}

/// The associated data of a segment is nine bytes: the segment's position as a
/// number, most significant byte first, and 1 for a final segment or 0 for
/// another.
pub proof fn lemma_segment_associated_data(position: u64, kind: SegmentKind)
    ensures
        segment_aad(position, kind).len() == 9,
        number64(segment_aad(position, kind), 0) == position,
        ({
            let aad = segment_aad(position, kind);
            aad[0] * 0x100_0000_0000_0000 + aad[1] * 0x1_0000_0000_0000 + aad[2] * 0x100_0000_0000
                + aad[3] * 0x1_0000_0000 + aad[4] * 0x100_0000 + aad[5] * 0x1_0000 + aad[6] * 0x100
                + aad[7]
        }) == position,
        segment_aad(position, kind)[8] == if kind is Final {
            1u8
        } else {
            0u8
        },
{
    lemma_numbers_are_big_endian(0, position, Seq::empty());
    let aad = segment_aad(position, kind);
    assert(aad.take(8) =~= be64(position));
    assert(number64(aad, 0) == number64(aad.take(8), 0));
}

/// Nine bytes that read so are the associated data of that segment.
pub proof fn lemma_segment_associated_data_is_fixed(
    position: u64,
    kind: SegmentKind,
    aad: Seq<u8>,
)
    requires
        aad.len() == 9,
        number64(aad, 0) == position,
        aad[8] == if kind is Final {
            1u8
        } else {
            0u8
        },
    ensures
        aad == segment_aad(position, kind),
{
    lemma_segment_associated_data(position, kind);
    lemma_number64_injective(aad, segment_aad(position, kind), 0);
    assert(aad =~= segment_aad(position, kind));
}

/// What opens under AES-256-GCM is what its plaintext is sealed to, and what
/// does not open is what no plaintext is sealed to.
pub proof fn lemma_opening_undoes_sealing(
    key: Seq<u8>,
    nonce: Seq<u8>,
    aad: Seq<u8>,
    sealed: Seq<u8>,
)
    ensures
        match aes_256_gcm_open(key, nonce, aad, sealed) {
            Some(plaintext) => sealed.len() == plaintext.len() + 16 && sealed == aes_256_gcm(
                key,
                nonce,
                aad,
                plaintext,
            ),
            None => forall|plaintext: Seq<u8>|
                sealed.len() == plaintext.len() + 16 ==> sealed != #[trigger] aes_256_gcm(
                    key,
                    nonce,
                    aad,
                    plaintext,
                ),
        },
{
    reveal(aes_256_gcm_open);
    assert forall|plaintext: Seq<u8>|
        aes_256_gcm_open(key, nonce, aad, sealed) is None && sealed.len() == plaintext.len()
            + 16 implies sealed != #[trigger] aes_256_gcm(key, nonce, aad, plaintext) by {
        assert(!aes_256_gcm_seals(key, nonce, aad, plaintext, sealed));
    }
}

/// `segment` is four bytes that say how long it is, or, where another segment
/// follows, that it is a full one; twelve bytes of nonce; and what opens to
/// `plaintext` under the key and the associated data of its position.
pub open spec fn segment_opens(
    session: Session,
    position: u64,
    kind: SegmentKind,
    segment: Seq<u8>,
    plaintext: Seq<u8>,
) -> bool {
    &&& segment.len() == 32 + plaintext.len()
    &&& number32(segment, 0) == if kind is Final {
        segment.len() as int
    } else {
        0xffff_ffff
    }
    &&& aes_256_gcm_open(
        hmac_sha384(
            session.message_key,
            segment_key_input(session.parameters, session.iv, position, session.aad),
        ).take(32),
        segment.subrange(4, 16),
        segment_aad(position, kind),
        segment.skip(16),
    ) == Some(plaintext)
}

/// A segment that encrypts a plaintext is framed, sealed, and opens as the wire
/// format says.
pub proof fn lemma_encrypted_segment(
    session: Session,
    position: u64,
    kind: SegmentKind,
    plaintext: Seq<u8>,
    segment: Seq<u8>,
)
    requires
        session.encrypts(position, kind, plaintext, segment),
        plaintext.len() + 32 <= 0xffff_ffff,
    ensures
        segment_opens(session, position, kind, segment, plaintext),
        segment.skip(16) == aes_256_gcm(
            hmac_sha384(
                session.message_key,
                segment_key_input(session.parameters, session.iv, position, session.aad),
            ).take(32),
            segment.subrange(4, 16),
            segment_aad(position, kind),
            plaintext,
        ),
{
    reveal(Session::encrypts);
    lemma_derivations(
        session.message_key,
        session.parameters,
        session.iv,
        session.aad,
        session,
        position,
    );
    let prefix = if kind is Final {
        (32 + plaintext.len()) as u32
    } else {
        0xffff_ffffu32
    };
    lemma_numbers_are_big_endian(prefix, 0, Seq::empty());
    assert(segment.take(4) =~= be32(prefix));
    assert(number32(segment, 0) == number32(segment.take(4), 0));
    lemma_opening_undoes_sealing(
        session.segment_key(position),
        segment.subrange(4, 16),
        segment_aad(position, kind),
        segment.skip(16),
    );
}

/// A segment that is encrypted with a nonce of one's own holds that nonce: four
/// bytes of prefix, the nonce, and what AES-256-GCM makes of the plaintext with
/// it.
pub proof fn lemma_segment_with_nonce(
    session: Session,
    position: u64,
    kind: SegmentKind,
    nonce: Seq<u8>,
    plaintext: Seq<u8>,
)
    requires
        nonce.len() == 12,
        plaintext.len() + 32 <= 0xffff_ffff,
    ensures
        ({
            let segment = session.segment(position, kind, nonce, plaintext);
            &&& number32(segment, 0) == if kind is Final {
                plaintext.len() + 32
            } else {
                0xffff_ffff
            }
            &&& segment.subrange(4, 16) == nonce
            &&& segment.skip(16) == aes_256_gcm(
                hmac_sha384(
                    session.message_key,
                    segment_key_input(session.parameters, session.iv, position, session.aad),
                ).take(32),
                nonce,
                segment_aad(position, kind),
                plaintext,
            )
        }),
{
    let segment = session.segment(position, kind, nonce, plaintext);
    lemma_derivations(
        session.message_key,
        session.parameters,
        session.iv,
        session.aad,
        session,
        position,
    );
    let prefix = if kind is Final {
        (32 + plaintext.len()) as u32
    } else {
        0xffff_ffffu32
    };
    lemma_numbers_are_big_endian(prefix, 0, Seq::empty());
    assert(segment.take(4) =~= be32(prefix));
    assert(number32(segment, 0) == number32(segment.take(4), 0));
    assert(segment.subrange(4, 16) =~= nonce);
    assert(segment.skip(16) =~= aes_256_gcm(
        session.segment_key(position),
        nonce,
        segment_aad(position, kind),
        plaintext,
    ));
}

/// Decrypting a segment succeeds exactly where the segment is as long as its
/// kind permits, its position is below two to the power of forty, and it is
/// framed and opens as the wire format says. The plaintext is what it opens to.
pub proof fn lemma_decrypted_segment(
    session: Session,
    position: u64,
    kind: SegmentKind,
    segment: Seq<u8>,
    plaintext: Seq<u8>,
)
    requires
        session.parameters.wf(),
    ensures
        session.decrypted(position, kind, segment) == Ok::<Seq<u8>, Error>(plaintext) <==> {
            &&& position < 0x100_0000_0000
            &&& segment.len() <= session.parameters.segment_length()
            &&& kind is NonFinal ==> segment.len() == session.parameters.segment_length()
            &&& segment_opens(session, position, kind, segment, plaintext)
        },
{
    lemma_derivations(
        session.message_key,
        session.parameters,
        session.iv,
        session.aad,
        session,
        position,
    );
    lemma_numbers_are_big_endian(0, 0, segment.take(4));
    lemma_opened_length(
        session.segment_key(position),
        segment.subrange(4, 16),
        segment_aad(position, kind),
        segment.skip(16),
    );
    if segment.len() >= 32 {
        assert(number32(segment, 0) == number32(segment.take(4), 0));
    }
}

/// Each way in which a segment is rejected: by its length, by its prefix, by
/// its position, and only then because it does not open.
pub proof fn lemma_rejected_segment(
    session: Session,
    position: u64,
    kind: SegmentKind,
    segment: Seq<u8>,
)
    requires
        session.parameters.wf(),
        segment.len() <= usize::MAX,
    ensures
        ({
            let actual = segment.len() as usize;
            let full = session.parameters.segment_length() as usize;
            let result = session.decrypted(position, kind, segment);
            if kind is NonFinal && actual != full {
                result == Err::<Seq<u8>, Error>(
                    Error::InvalidCiphertextLength {
                        actual,
                        required: LengthRequirement::Exactly(full),
                    },
                )
            } else if actual < 32 || full < actual {
                result == Err::<Seq<u8>, Error>(
                    Error::InvalidCiphertextLength {
                        actual,
                        required: LengthRequirement::Between { minimum: 32, maximum: full },
                    },
                )
            } else if kind is NonFinal && number32(segment, 0) != 0xffff_ffff {
                result == Err::<Seq<u8>, Error>(Error::InvalidSegmentPrefix)
            } else if kind is Final && number32(segment, 0) != actual {
                result == Err::<Seq<u8>, Error>(
                    Error::InvalidCiphertextLength {
                        actual,
                        required: LengthRequirement::Exactly(number32(segment, 0) as usize),
                    },
                )
            } else if position >= 0x100_0000_0000 {
                result == Err::<Seq<u8>, Error>(Error::SegmentLimit)
            } else {
                result is Ok || result == Err::<Seq<u8>, Error>(Error::AuthenticationFailed)
            }
        }),
{
    lemma_numbers_are_big_endian(0, 0, segment.take(4));
    if segment.len() >= 32 {
        assert(number32(segment, 0) == number32(segment.take(4), 0));
    }
}

/// What a prefix of four bytes declares: all ones a full segment that another
/// follows, and a number of at least 32 and at most the length of a full segment
/// the final segment, with that length. Any other prefix is refused.
pub proof fn lemma_framing_format(
    framing: SegmentFraming,
    parameters: Parameters,
    prefix: Seq<u8>,
)
    requires
        parameters.wf(),
    ensures
        SegmentFraming::error(parameters, from_be32(prefix)) == if number32(prefix, 0)
            == 0xffff_ffff || 32 <= number32(prefix, 0) <= parameters.segment_length() {
            None
        } else {
            Some(
                Error::InvalidCiphertextLength {
                    actual: number32(prefix, 0) as usize,
                    required: LengthRequirement::Between {
                        minimum: 32,
                        maximum: parameters.segment_length() as usize,
                    },
                },
            )
        },
        framing.declared_by(parameters, from_be32(prefix)) ==> {
            &&& framing.plaintext_length() == framing.ciphertext_length() - 32
            &&& framing.kind() is NonFinal <==> number32(prefix, 0) == 0xffff_ffff
            &&& framing.ciphertext_length() == if framing.kind() is NonFinal {
                parameters.segment_length()
            } else {
                number32(prefix, 0)
            }
        },
{
    lemma_numbers_are_big_endian(0, 0, prefix);
}

/// Each way in which the rest of a body is rejected at its next segment: it has
/// ended without a final segment, it ends inside a prefix, the prefix declares a
/// length that no segment has, less or more is there than the prefix declares,
/// the message is closed or full, or the segment does not open.
pub proof fn lemma_rejected_body(session: Session, counter: SegmentCounter, body: Seq<u8>)
    requires
        session.parameters.wf(),
        counter.wf(),
        body.len() <= usize::MAX,
    ensures
        ({
            let full = session.parameters.segment_length();
            let declared = number32(body, 0);
            let is_final = declared != 0xffff_ffff;
            let needed = if is_final {
                declared
            } else {
                full
            };
            let actual = body.len() as usize;
            let result = body_decrypted(session, counter, body);
            if body.len() == 0 {
                result == if counter.closed {
                    Ok::<Seq<u8>, Error>(Seq::empty())
                } else {
                    Err::<Seq<u8>, Error>(Error::Truncated)
                }
            } else if body.len() < 4 {
                result == Err::<Seq<u8>, Error>(
                    Error::InvalidCiphertextLength {
                        actual,
                        required: LengthRequirement::Between {
                            minimum: 4,
                            maximum: full as usize,
                        },
                    },
                )
            } else if is_final && !(32 <= declared <= full) {
                result == Err::<Seq<u8>, Error>(
                    Error::InvalidCiphertextLength {
                        actual: declared as usize,
                        required: LengthRequirement::Between {
                            minimum: 32,
                            maximum: full as usize,
                        },
                    },
                )
            } else if body.len() < needed {
                result == Err::<Seq<u8>, Error>(
                    Error::InvalidCiphertextLength {
                        actual,
                        required: LengthRequirement::AtLeast(needed as usize),
                    },
                )
            } else if is_final && body.len() != needed {
                result == Err::<Seq<u8>, Error>(
                    Error::InvalidCiphertextLength {
                        actual,
                        required: LengthRequirement::Exactly(needed as usize),
                    },
                )
            } else if counter.closed {
                result == Err::<Seq<u8>, Error>(Error::Closed)
            } else if !is_final && counter.next == 0xff_ffff_ffff {
                result == Err::<Seq<u8>, Error>(Error::SegmentLimit)
            } else {
                let kind = if is_final {
                    SegmentKind::Final
                } else {
                    SegmentKind::NonFinal
                };
                session.decrypted(counter.next, kind, body.take(needed)) is Err ==> result
                    == Err::<Seq<u8>, Error>(Error::AuthenticationFailed)
            }
        }),
{
    lemma_body_stops(session, counter, body);
    if body.len() >= 4 {
        let full = session.parameters.segment_length();
        let declared = number32(body, 0);
        let kind = segment_kind(body);
        lemma_declared(session.parameters, body);
        let needed = if kind is Final {
            declared
        } else {
            full
        };
        counter.lemma_positions_count_up(kind);
        if 32 <= needed <= full && needed <= body.len() {
            let segment = body.take(needed);
            assert(segment.take(4) =~= body.take(4));
            lemma_declared(session.parameters, segment);
            lemma_rejected_segment(session, counter.next, kind, segment);
        }
    }
}

/// What the prefix of a segment declares.
proof fn lemma_declared(parameters: Parameters, segment: Seq<u8>)
    requires
        parameters.wf(),
        4 <= segment.len() <= usize::MAX,
    ensures
        segment_kind(segment) is NonFinal <==> number32(segment, 0) == 0xffff_ffff,
        segment_prefix_value(segment) == number32(segment, 0),
        number32(segment, 0) == number32(segment.take(4), 0),
{
    lemma_numbers_are_big_endian(0, 0, segment.take(4));
    assert(number32(segment, 0) == number32(segment.take(4), 0));
}

/// The segment at `index` of a message: it starts a whole number of full
/// segments after the header, is full or ends the message, and holds the
/// plaintext from as many full pieces on.
pub open spec fn message_segment_opens(
    session: Session,
    ciphertext: Seq<u8>,
    plaintext: Seq<u8>,
    index: int,
) -> bool {
    let full = session.parameters.segment_length();
    let start = 74 + index * full;
    let end = if start + full < ciphertext.len() {
        start + full
    } else {
        ciphertext.len() as int
    };
    let kind = if end == ciphertext.len() {
        SegmentKind::Final
    } else {
        SegmentKind::NonFinal
    };
    let from = index * (full - 32);
    let to = from + end - start - 32;
    &&& index < 0x100_0000_0000
    &&& 0 <= from <= to <= plaintext.len()
    &&& kind is Final ==> to == plaintext.len()
    &&& segment_opens(
        session,
        index as u64,
        kind,
        ciphertext.subrange(start, end),
        plaintext.subrange(from, to),
    )
}

/// `ciphertext` is a header of 74 bytes that the key and the associated data
/// account for, followed by at least one segment, and its segments open, in
/// order, to `plaintext`.
pub open spec fn message_opens(
    key: Seq<u8>,
    aad: Seq<u8>,
    parameters: Parameters,
    ciphertext: Seq<u8>,
    plaintext: Seq<u8>,
) -> bool {
    let iv = ciphertext.subrange(10, 42);
    let session = Session {
        parameters,
        message_key: hmac_sha384(key, message_key_input(parameters, iv, aad)).take(48),
        iv,
        aad,
    };
    &&& 74 < ciphertext.len()
    &&& ciphertext.take(10) == parameters.encoding()
    &&& ciphertext.subrange(42, 74) == hmac_sha384(
        key,
        header_tag_input(parameters, iv, aad),
    ).take(32)
    &&& forall|index: int|
        0 <= index && 74 + index * parameters.segment_length() < ciphertext.len()
            ==> #[trigger] message_segment_opens(session, ciphertext, plaintext, index)
}

/// From any segment on, segments that open give the rest of the plaintext.
proof fn lemma_body_opens(
    session: Session,
    ciphertext: Seq<u8>,
    plaintext: Seq<u8>,
    index: int,
)
    requires
        session.parameters.wf(),
        0 <= index,
        74 + index * session.parameters.segment_length() < ciphertext.len(),
        forall|i: int|
            0 <= i && 74 + i * session.parameters.segment_length() < ciphertext.len()
                ==> #[trigger] message_segment_opens(session, ciphertext, plaintext, i),
    ensures
        body_decrypted(
            session,
            SegmentCounter { next: index as u64, closed: false },
            ciphertext.skip(74 + index * session.parameters.segment_length()),
        ) == Ok::<Seq<u8>, Error>(
            plaintext.skip(index * (session.parameters.segment_length() - 32)),
        ),
    decreases ciphertext.len() - index * session.parameters.segment_length(),
{
    let parameters = session.parameters;
    let full = parameters.segment_length();
    let payload = full - 32;
    let start = 74 + index * full;
    let body = ciphertext.skip(start);
    let counter = SegmentCounter { next: index as u64, closed: false };
    assert(message_segment_opens(session, ciphertext, plaintext, index));
    assert((index + 1) * full == index * full + full) by (nonlinear_arith);
    assert((index + 1) * payload == index * payload + payload) by (nonlinear_arith);
    let end = if start + full < ciphertext.len() {
        start + full
    } else {
        ciphertext.len() as int
    };
    let kind = if end == ciphertext.len() {
        SegmentKind::Final
    } else {
        SegmentKind::NonFinal
    };
    let segment = ciphertext.subrange(start, end);
    let from = index * payload;
    let piece = plaintext.subrange(from, from + end - start - 32);
    lemma_decrypted_segment(session, index as u64, kind, segment, piece);
    lemma_numbers_are_big_endian(0, 0, segment.take(4));
    assert(number32(segment.take(4), 0) == number32(segment, 0));
    assert(body.take(segment.len() as int) =~= segment);
    if kind is NonFinal && index + 1 >= 0x100_0000_0000 {
        assert(message_segment_opens(session, ciphertext, plaintext, index + 1));
    }
    lemma_body_step(session, counter, body, segment, piece);
    if kind is NonFinal {
        lemma_body_opens(session, ciphertext, plaintext, index + 1);
        assert(body.skip(segment.len() as int) =~= ciphertext.skip(74 + (index + 1) * full));
        assert(piece + plaintext.skip((index + 1) * payload) =~= plaintext.skip(from));
    } else {
        assert(body.skip(segment.len() as int) =~= Seq::empty());
        lemma_body_stops(session, counter.advanced(kind), Seq::empty());
        assert(piece + Seq::<u8>::empty() =~= plaintext.skip(from));
    }
}

/// The complete format of a message: decrypting it succeeds exactly where its
/// header and every one of its segments are as the wire format says, and gives
/// what the segments open to.
pub proof fn lemma_message_format(
    key: Seq<u8>,
    aad: Seq<u8>,
    parameters: Parameters,
    ciphertext: Seq<u8>,
    plaintext: Seq<u8>,
)
    requires
        parameters.wf(),
        74 <= ciphertext.len(),
        ciphertext.take(10) == parameters.encoding(),
    ensures
        message_decrypted(key, aad, ciphertext) == Ok::<Seq<u8>, Error>(plaintext)
            <==> message_opens(key, aad, parameters, ciphertext, plaintext),
{
    let iv = ciphertext.subrange(10, 42);
    let bytes = ciphertext.take(74);
    let current = session(key, parameters, iv, aad);
    let full = parameters.segment_length();
    lemma_derivations(key, parameters, iv, aad, current, 0);
    parameters.lemma_encoding_round_trip();
    assert(bytes.take(10) =~= ciphertext.take(10));
    assert(header_iv(bytes) =~= iv);
    assert(bytes =~= ciphertext.take(10) + iv + ciphertext.subrange(42, 74));
    assert(header(key, parameters, iv, aad).skip(42) =~= header_tag(key, parameters, iv, aad));
    assert(bytes.skip(42) =~= ciphertext.subrange(42, 74));
    let body = ciphertext.skip(74);
    assert(0 * full == 0 && 0 * (full - 32) == 0) by (nonlinear_arith);
    if message_decrypted(key, aad, ciphertext) == Ok::<Seq<u8>, Error>(plaintext) {
        if body.len() == 0 {
            lemma_body_stops(current, SegmentCounter::start(), body);
        }
        assert forall|index: int|
            0 <= index && 74 + index * full
                < ciphertext.len() implies #[trigger] message_segment_opens(
            current,
            ciphertext,
            plaintext,
            index,
        ) by {
            lemma_message_segment(current, ciphertext, plaintext, index);
        }
    }
    if message_opens(key, aad, parameters, ciphertext, plaintext) {
        lemma_body_opens(current, ciphertext, plaintext, 0);
        assert(plaintext.skip(0) =~= plaintext);
    }
}

/// A segment of a message that decrypts is as the wire format says.
proof fn lemma_message_segment(
    session: Session,
    ciphertext: Seq<u8>,
    plaintext: Seq<u8>,
    index: int,
)
    requires
        session.parameters.wf(),
        74 <= ciphertext.len(),
        body_decrypted(session, SegmentCounter::start(), ciphertext.skip(74)) == Ok::<
            Seq<u8>,
            Error,
        >(plaintext),
        0 <= index,
        74 + index * session.parameters.segment_length() < ciphertext.len(),
    ensures
        message_segment_opens(session, ciphertext, plaintext, index),
{
    let full = session.parameters.segment_length();
    let body = ciphertext.skip(74);
    let start = index * full;
    lemma_segment_of_body(session, 0, body, plaintext, index);
    let length = segment_length_at(session.parameters, body, start);
    let kind = if start + length == body.len() {
        SegmentKind::Final
    } else {
        SegmentKind::NonFinal
    };
    let from = index * (full - 32);
    lemma_decrypted_segment(
        session,
        index as u64,
        kind,
        body.subrange(start, start + length),
        plaintext.subrange(from, from + length - 32),
    );
    assert(body.subrange(start, start + length) =~= ciphertext.subrange(
        74 + start,
        74 + start + length,
    ));
}

/// What encrypting a plaintext produces: a message that opens to the plaintext,
/// in as few segments as hold it, each 32 bytes longer than its piece.
pub proof fn lemma_encrypted_message_format(
    key: Seq<u8>,
    aad: Seq<u8>,
    parameters: Parameters,
    iv: Seq<u8>,
    plaintext: Seq<u8>,
    ciphertext: Seq<u8>,
    segments: int,
)
    requires
        parameters.wf(),
        iv.len() == 32,
        message_encrypted(
            session(key, parameters, iv, aad),
            header(key, parameters, iv, aad),
            plaintext,
            ciphertext,
        ),
        1 <= segments <= 0x100_0000_0000,
        plaintext.len() <= segments * (parameters.segment_length() - 32),
        segments > 1 ==> (segments - 1) * (parameters.segment_length() - 32) < plaintext.len(),
    ensures
        message_opens(key, aad, parameters, ciphertext, plaintext),
        ciphertext.subrange(10, 42) == iv,
        ciphertext.len() == 74 + plaintext.len() + 32 * segments,
{
    let length = plaintext.len() as int;
    let payload = parameters.segment_length() - 32;
    parameters.lemma_fewest_segments(length, segments);
    assert(SEGMENT_OVERHEAD * segments == 32 * segments) by (nonlinear_arith)
        requires
            SEGMENT_OVERHEAD == 32,
    ;
    lemma_message_round_trip(key, aad, parameters, iv, plaintext, ciphertext);
    lemma_header_format(key, parameters, iv, aad);
    let bytes = header(key, parameters, iv, aad);
    assert(ciphertext.take(10) =~= bytes.take(10));
    assert(ciphertext.subrange(10, 42) =~= bytes.subrange(10, 42));
    lemma_message_format(key, aad, parameters, ciphertext, plaintext);
}

/// A header that is not as the wire format says stops decryption: with
/// parameters that nothing encodes, or with a tag that the key, the parameters,
/// the IV, and all of the associated data do not account for.
pub proof fn lemma_rejected_header(key: Seq<u8>, aad: Seq<u8>, ciphertext: Seq<u8>)
    requires
        74 <= ciphertext.len(),
    ensures
        match Parameters::decoding(ciphertext.take(10)) {
            None => message_decrypted(key, aad, ciphertext) == Err::<Seq<u8>, Error>(
                Error::InvalidHeaderParameters,
            ),
            Some(parameters) => ciphertext.subrange(42, 74) != hmac_sha384(
                key,
                header_tag_input(parameters, ciphertext.subrange(10, 42), aad),
            ).take(32) ==> message_decrypted(key, aad, ciphertext) == Err::<Seq<u8>, Error>(
                Error::InvalidHeaderTag,
            ),
        },
{
    let bytes = ciphertext.take(74);
    Parameters::lemma_decoding(ciphertext.take(10));
    if let Some(parameters) = Parameters::decoding(ciphertext.take(10)) {
        let iv = ciphertext.subrange(10, 42);
        lemma_derivations(key, parameters, iv, aad, session(key, parameters, iv, aad), 0);
        assert(bytes.take(10) =~= ciphertext.take(10));
        assert(header_iv(bytes) =~= iv);
        assert(header(key, parameters, iv, aad).skip(42) =~= header_tag(key, parameters, iv, aad));
        assert(bytes.skip(42) =~= ciphertext.subrange(42, 74));
    }
}

/// A message that is cut is not taken for a complete one: of the first `length`
/// bytes of a message that decrypts, which are not all of it, either the length
/// is one that no message has, or their last segment is rejected as a final one,
/// because its prefix says that it is longer.
pub proof fn lemma_cut_message_has_no_end(
    key: Seq<u8>,
    aad: Seq<u8>,
    parameters: Parameters,
    ciphertext: Seq<u8>,
    plaintext: Seq<u8>,
    length: u64,
    last: int,
)
    requires
        parameters.wf(),
        ciphertext.take(10) == parameters.encoding(),
        message_decrypted(key, aad, ciphertext) == Ok::<Seq<u8>, Error>(plaintext),
        74 < length < ciphertext.len(),
        0 <= last,
        74 + last * parameters.segment_length() < length <= 74 + (last + 1)
            * parameters.segment_length(),
    ensures
        ({
            let start = 74 + last * parameters.segment_length();
            let session = session(key, parameters, ciphertext.subrange(10, 42), aad);
            ||| parameters.ciphertext_layout_error(length) is Some
            ||| session.decrypted(
                last as u64,
                SegmentKind::Final,
                ciphertext.subrange(start, length as int),
            ) == Err::<Seq<u8>, Error>(
                Error::InvalidCiphertextLength {
                    actual: (length - start) as usize,
                    required: LengthRequirement::Exactly(
                        number32(ciphertext, start) as usize,
                    ),
                },
            )
        }),
{
    let full = parameters.segment_length();
    let start = 74 + last * full;
    let iv = ciphertext.subrange(10, 42);
    let current = session(key, parameters, iv, aad);
    assert((last + 1) * full == last * full + full) by (nonlinear_arith);
    parameters.lemma_ciphertext_layout_limits(length, last + 1, length - start);
    if parameters.ciphertext_layout_error(length) is None {
        lemma_message_format(key, aad, parameters, ciphertext, plaintext);
        lemma_derivations(key, parameters, iv, aad, current, 0);
        assert(message_segment_opens(current, ciphertext, plaintext, last));
        let end = if start + full < ciphertext.len() {
            start + full
        } else {
            ciphertext.len() as int
        };
        let whole = ciphertext.subrange(start, end);
        let cut = ciphertext.subrange(start, length as int);
        assert(0 <= last * full) by (nonlinear_arith)
            requires
                0 <= last,
                0 <= full,
        ;
        assert(number32(whole, 0) == number32(ciphertext, start));
        assert(number32(cut, 0) == number32(ciphertext, start));
        lemma_rejected_segment(current, last as u64, SegmentKind::Final, cut);
    }
}

} // verus!
