use crate::bytes::{be32, be64, from_be32, lemma_be64_injective};
use crate::error::{Error, LengthRequirement};
use crate::layout::prefix_value;
use crate::parameters::{
    Parameters, SegmentKind, AEAD_MAX_SEGMENTS, AEAD_TAG_LENGTH, ENCODED_PARAMETERS_LENGTH,
    FLOE_IV_LENGTH, SEGMENT_OVERHEAD, SEGMENT_PAYLOAD_OFFSET, SEGMENT_PREFIX_LENGTH,
};
use crate::primitives::{aes_256_gcm, aes_256_gcm_open, hkdf_expand, only_tag};
use vstd::prelude::*;

verus! {

/// `HEADER_TAG:` in ASCII.
pub const HEADER_TAG_PURPOSE: [u8; 11] = [
    0x48,
    0x45,
    0x41,
    0x44,
    0x45,
    0x52,
    0x5f,
    0x54,
    0x41,
    0x47,
    0x3a,
];

/// `MESSAGE_KEY:` in ASCII.
pub const MESSAGE_KEY_PURPOSE: [u8; 12] = [
    0x4d,
    0x45,
    0x53,
    0x53,
    0x41,
    0x47,
    0x45,
    0x5f,
    0x4b,
    0x45,
    0x59,
    0x3a,
];

/// `DEK:` in ASCII.
pub const SEGMENT_KEY_PURPOSE: [u8; 4] = [0x44, 0x45, 0x4b, 0x3a];

/// The tag that authenticates the header of a message.
pub open spec fn header_tag(
    key: Seq<u8>,
    parameters: Parameters,
    iv: Seq<u8>,
    aad: Seq<u8>,
) -> Seq<u8> {
    hkdf_expand(key, parameters.encoding() + iv + HEADER_TAG_PURPOSE@ + aad, 32)
}

/// The header of a message.
pub open spec fn header(
    key: Seq<u8>,
    parameters: Parameters,
    iv: Seq<u8>,
    aad: Seq<u8>,
) -> Seq<u8> {
    parameters.encoding() + iv + header_tag(key, parameters, iv, aad)
}

/// The IV in a header.
pub open spec fn header_iv(header: Seq<u8>) -> Seq<u8> {
    header.subrange(
        ENCODED_PARAMETERS_LENGTH as int,
        ENCODED_PARAMETERS_LENGTH + FLOE_IV_LENGTH,
    )
}

/// What the segments of one message are encrypted with.
#[verifier::ext_equal]
pub struct Session {
    pub parameters: Parameters,
    pub message_key: Seq<u8>,
    pub iv: Seq<u8>,
    pub aad: Seq<u8>,
}

/// The session of a message.
pub open spec fn session(
    key: Seq<u8>,
    parameters: Parameters,
    iv: Seq<u8>,
    aad: Seq<u8>,
) -> Session {
    Session {
        parameters,
        message_key: hkdf_expand(key, parameters.encoding() + iv + MESSAGE_KEY_PURPOSE@ + aad, 48),
        iv,
        aad,
    }
}

/// The error, if any, of starting to decrypt a message with `parameters`.
pub open spec fn header_error(
    key: Seq<u8>,
    parameters: Parameters,
    aad: Seq<u8>,
    bytes: Seq<u8>,
) -> Option<Error> {
    if bytes.take(ENCODED_PARAMETERS_LENGTH as int) != parameters.encoding() {
        Some(Error::InvalidHeaderParameters)
    } else if bytes != header(key, parameters, header_iv(bytes), aad) {
        Some(Error::InvalidHeaderTag)
    } else {
        None
    }
}

/// The error, if any, of encrypting `length` plaintext bytes as one segment.
pub open spec fn plaintext_error(
    parameters: Parameters,
    kind: SegmentKind,
    length: int,
) -> Option<Error> {
    if kind is Final && length > parameters.payload_length() {
        Some(
            Error::InvalidPlaintextLength {
                actual: length as usize,
                required: LengthRequirement::AtMost(parameters.payload_length() as usize),
            },
        )
    } else if kind is NonFinal && length != parameters.payload_length() {
        Some(
            Error::InvalidPlaintextLength {
                actual: length as usize,
                required: LengthRequirement::Exactly(parameters.payload_length() as usize),
            },
        )
    } else {
        None
    }
}

/// The error, if any, of writing `required` bytes to an output of `actual`.
pub open spec fn output_error(actual: int, required: int) -> Option<Error> {
    if actual < required {
        Some(Error::OutputTooSmall { actual: actual as usize, required: required as usize })
    } else {
        None
    }
}

/// The error, if any, of a segment's length and prefix.
pub open spec fn framing_error(
    parameters: Parameters,
    kind: SegmentKind,
    segment: Seq<u8>,
) -> Option<Error> {
    let prefix = from_be32(segment.take(SEGMENT_PREFIX_LENGTH as int));
    match kind {
        SegmentKind::Final => if parameters.segment_length_error(segment.len() as int) is Some {
            parameters.segment_length_error(segment.len() as int)
        } else if prefix != segment.len() {
            Some(
                Error::InvalidCiphertextLength {
                    actual: segment.len() as usize,
                    required: LengthRequirement::Exactly(prefix as usize),
                },
            )
        } else {
            None
        },
        SegmentKind::NonFinal => if segment.len() != parameters.segment_length() {
            Some(
                Error::InvalidCiphertextLength {
                    actual: segment.len() as usize,
                    required: LengthRequirement::Exactly(parameters.segment_length() as usize),
                },
            )
        } else if prefix != u32::MAX {
            Some(Error::InvalidSegmentPrefix)
        } else {
            None
        },
    }
}

/// The associated data of a segment.
pub open spec fn segment_aad(position: u64, kind: SegmentKind) -> Seq<u8> {
    be64(position).push(kind.marker())
}

/// A segment authenticates where it stands and whether it is final: no two
/// positions or kinds have the same associated data.
pub proof fn lemma_segment_aad_injective(
    position: u64,
    kind: SegmentKind,
    other_position: u64,
    other_kind: SegmentKind,
)
    requires
        segment_aad(position, kind) == segment_aad(other_position, other_kind),
    ensures
        position == other_position,
        kind == other_kind,
{
    let aad = segment_aad(position, kind);
    assert(aad.drop_last() =~= be64(position));
    assert(aad.drop_last() =~= be64(other_position));
    assert(aad.last() == kind.marker());
    assert(aad.last() == other_kind.marker());
    lemma_be64_injective(position, other_position);
}

impl Session {
    /// The key of the segments whose key position is `key_position`.
    pub open spec fn key_at(self, key_position: u64) -> Seq<u8> {
        hkdf_expand(
            self.message_key,
            self.parameters.encoding() + self.iv + SEGMENT_KEY_PURPOSE@ + be64(key_position)
                + self.aad,
            32,
        )
    }

    /// The key of the segment at `position`.
    pub open spec fn segment_key(self, position: u64) -> Seq<u8> {
        self.key_at(Parameters::key_position(position))
    }

    /// The segment that `plaintext` is encrypted to with `nonce`.
    pub open spec fn segment(
        self,
        position: u64,
        kind: SegmentKind,
        nonce: Seq<u8>,
        plaintext: Seq<u8>,
    ) -> Seq<u8> {
        be32(prefix_value(kind, SEGMENT_OVERHEAD + plaintext.len())) + nonce + aes_256_gcm(
            self.segment_key(position),
            nonce,
            segment_aad(position, kind),
            plaintext,
        )
    }

    /// The plaintext that `segment` authenticates, if there is one.
    pub open spec fn opened(
        self,
        position: u64,
        kind: SegmentKind,
        segment: Seq<u8>,
    ) -> Option<Seq<u8>> {
        aes_256_gcm_open(
            self.segment_key(position),
            segment_nonce(segment),
            segment_aad(position, kind),
            segment.skip(SEGMENT_PAYLOAD_OFFSET as int),
        )
    }

    /// `segment` is what `plaintext` is encrypted to with the nonce that the
    /// segment holds, it opens to that plaintext, and with no other tag it opens.
    #[verifier::opaque]
    pub open spec fn encrypts(
        self,
        position: u64,
        kind: SegmentKind,
        plaintext: Seq<u8>,
        segment: Seq<u8>,
    ) -> bool {
        &&& segment.len() == SEGMENT_OVERHEAD + plaintext.len()
        &&& segment == self.segment(position, kind, segment_nonce(segment), plaintext)
        &&& self.opened(position, kind, segment) == Some(plaintext)
        &&& only_tag(
            self.segment_key(position),
            segment_nonce(segment),
            segment_aad(position, kind),
            segment.subrange(
                SEGMENT_PAYLOAD_OFFSET as int,
                SEGMENT_PAYLOAD_OFFSET + plaintext.len(),
            ),
            segment.skip(SEGMENT_PAYLOAD_OFFSET + plaintext.len()),
        )
    }

    /// What decrypting a segment gives, once its framing is accepted.
    pub open spec fn authenticated(
        self,
        position: u64,
        kind: SegmentKind,
        segment: Seq<u8>,
    ) -> Result<Seq<u8>, Error> {
        if position >= AEAD_MAX_SEGMENTS {
            Err(Error::SegmentLimit)
        } else {
            match self.opened(position, kind, segment) {
                Some(plaintext) => Ok(plaintext),
                None => Err(Error::AuthenticationFailed),
            }
        }
    }

    /// What decrypting a segment gives.
    pub open spec fn decrypted(
        self,
        position: u64,
        kind: SegmentKind,
        segment: Seq<u8>,
    ) -> Result<Seq<u8>, Error> {
        match framing_error(self.parameters, kind, segment) {
            Some(error) => Err(error),
            None => self.authenticated(position, kind, segment),
        }
    }

    /// Decryption undoes encryption: a segment that encrypts a plaintext of a
    /// permitted length is decrypted to that plaintext.
    pub proof fn lemma_segment_round_trip(
        self,
        position: u64,
        kind: SegmentKind,
        plaintext: Seq<u8>,
        segment: Seq<u8>,
    )
        requires
            self.parameters.wf(),
            position < AEAD_MAX_SEGMENTS,
            plaintext_error(self.parameters, kind, plaintext.len() as int) is None,
            self.encrypts(position, kind, plaintext, segment),
        ensures
            segment.len() == SEGMENT_OVERHEAD + plaintext.len(),
            framing_error(self.parameters, kind, segment) is None,
            self.decrypted(position, kind, segment) == Ok::<Seq<u8>, Error>(plaintext),
    {
        reveal(Session::encrypts);
        let value = prefix_value(kind, SEGMENT_OVERHEAD + plaintext.len());
        crate::bytes::lemma_be32_round_trip(value);
        assert(segment.take(SEGMENT_PREFIX_LENGTH as int) =~= be32(value));
    }

    proof fn lemma_altered_tag_does_not_open(
        self,
        position: u64,
        kind: SegmentKind,
        plaintext: Seq<u8>,
        segment: Seq<u8>,
        altered: Seq<u8>,
    )
        requires
            self.encrypts(position, kind, plaintext, segment),
            altered.len() == segment.len(),
            altered.take(segment.len() - AEAD_TAG_LENGTH) == segment.take(
                segment.len() - AEAD_TAG_LENGTH,
            ),
            altered != segment,
        ensures
            self.opened(position, kind, altered) is None,
    {
        let tag_start = segment.len() - AEAD_TAG_LENGTH;
        let head = segment.take(tag_start);
        let ciphertext = head.skip(SEGMENT_PAYLOAD_OFFSET as int);
        let tag = segment.skip(tag_start);
        let other = altered.skip(tag_start);
        let nonce = segment_nonce(segment);
        assert(only_tag(
            self.segment_key(position),
            nonce,
            segment_aad(position, kind),
            ciphertext,
            tag,
        ) && segment.len() == SEGMENT_OVERHEAD + plaintext.len()) by {
            reveal(Session::encrypts);
            assert(segment.subrange(SEGMENT_PAYLOAD_OFFSET as int, tag_start) =~= ciphertext);
        }
        assert(altered =~= head + other);
        assert(segment =~= head + tag);
        assert(segment_nonce(altered) =~= nonce);
        assert(altered.skip(SEGMENT_PAYLOAD_OFFSET as int) =~= ciphertext + other);
    }

    /// A segment with an altered tag is rejected: where all but the last bytes,
    /// which are the tag, are those of a segment that encrypts a plaintext, and
    /// the tag is not, the framing is accepted and authentication fails.
    pub proof fn lemma_altered_tag_is_rejected(
        self,
        position: u64,
        kind: SegmentKind,
        plaintext: Seq<u8>,
        segment: Seq<u8>,
        altered: Seq<u8>,
    )
        requires
            self.parameters.wf(),
            position < AEAD_MAX_SEGMENTS,
            plaintext_error(self.parameters, kind, plaintext.len() as int) is None,
            self.encrypts(position, kind, plaintext, segment),
            altered.len() == segment.len(),
            altered.take(segment.len() - AEAD_TAG_LENGTH) == segment.take(
                segment.len() - AEAD_TAG_LENGTH,
            ),
            altered != segment,
        ensures
            framing_error(self.parameters, kind, altered) is None,
            self.authenticated(position, kind, altered) == Err::<Seq<u8>, Error>(
                Error::AuthenticationFailed,
            ),
            self.decrypted(position, kind, altered) == Err::<Seq<u8>, Error>(
                Error::AuthenticationFailed,
            ),
    {
        self.lemma_segment_round_trip(position, kind, plaintext, segment);
        let tag_start = segment.len() - AEAD_TAG_LENGTH;
        assert(altered.take(SEGMENT_PREFIX_LENGTH as int) =~= altered.take(tag_start).take(
            SEGMENT_PREFIX_LENGTH as int,
        ));
        assert(segment.take(SEGMENT_PREFIX_LENGTH as int) =~= segment.take(tag_start).take(
            SEGMENT_PREFIX_LENGTH as int,
        ));
        self.lemma_altered_tag_does_not_open(position, kind, plaintext, segment, altered);
    }
}

/// The nonce in a segment.
pub open spec fn segment_nonce(segment: Seq<u8>) -> Seq<u8> {
    segment.subrange(SEGMENT_PREFIX_LENGTH as int, SEGMENT_PAYLOAD_OFFSET as int)
}

} // verus!
