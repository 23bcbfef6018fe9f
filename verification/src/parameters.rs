use crate::bytes::{be32, bytes_equal, decode_be32, encode_be32, from_be32};
use crate::error::{Error, LengthRequirement};
use vstd::prelude::*;

verus! {

pub const AEAD_IV_LENGTH: usize = 12;

pub const AEAD_TAG_LENGTH: usize = 16;

/// The most segments that one message can hold: two to the power of forty.
pub const AEAD_MAX_SEGMENTS: u64 = 0x100_0000_0000;

pub const FLOE_IV_LENGTH: usize = 32;

pub const ENCODED_PARAMETERS_LENGTH: usize = 10;

pub const HEADER_TAG_LENGTH: usize = 32;

pub const HEADER_LENGTH: usize = ENCODED_PARAMETERS_LENGTH + FLOE_IV_LENGTH + HEADER_TAG_LENGTH;

/// Segment length prefix size in bytes.
pub const SEGMENT_PREFIX_LENGTH: usize = 4;

/// Offset at which plaintext or ciphertext payload bytes begin in a segment.
///
/// Safe APIs encapsulate this detail in [`crate::low_level::SegmentBuffer`].
pub const SEGMENT_PAYLOAD_OFFSET: usize = SEGMENT_PREFIX_LENGTH + AEAD_IV_LENGTH;

/// The bytes that framing adds to a segment's plaintext.
pub const SEGMENT_OVERHEAD: usize = SEGMENT_PAYLOAD_OFFSET + AEAD_TAG_LENGTH;

/// Segment keys change every so many positions: two to the power of twenty.
pub const ROTATION_INTERVAL: u64 = 0x10_0000;

const ROTATION_MASK: u64 = 0xffff_ffff_fff0_0000;

const FLOE_IV_LENGTH_U32: u32 = 32;

const SEGMENT_OVERHEAD_U32: u32 = 32;

/// The segment length is the only varying parameter in the FLOE
/// specification; AES-256-GCM, HKDF-Expand-SHA-384, and the 32-byte FLOE
/// IV are fixed.
///
/// Use [`Parameters::from_segment_length`] to construct a [`Parameters`] instance with
/// your desired segment length, or use one of the pre-made parameter sets
/// like [`Parameters::segment_4_kib`] or [`Parameters::segment_1_mib`] if convenient.
#[derive(Clone, Copy, Debug, PartialEq, Eq, Structural)]
pub struct Parameters {
    ciphertext_segment_length: u32,
}

/// Whether a segment is an internal or final segment.
#[derive(Clone, Copy, Debug, PartialEq, Eq, Structural)]
pub enum SegmentKind {
    /// A full-sized segment followed by another segment.
    NonFinal,
    /// The authenticated final segment of a message.
    Final,
}

impl SegmentKind {
    /// Returns whether this identifies the message's final segment.
    pub fn is_final(self) -> (result: bool)
        ensures
            result == (self is Final),
    {
        matches!(self, SegmentKind::Final)
    }

    /// The byte that marks this kind in a segment's associated data.
    pub open spec fn marker(self) -> u8 {
        if self is Final {
            1
        } else {
            0
        }
    }

    pub(crate) fn indicator(self) -> (result: u8)
        ensures
            result == self.marker(),
    {
        match self {
            SegmentKind::NonFinal => 0,
            SegmentKind::Final => 1,
        }
    }
}

impl Parameters {
    /// Range of valid FLOE segment sizes in bytes. FLOE accepts _any_ segment size
    /// in this range and is not restricted to powers of 2.
    pub const VALID_SEGMENT_LENGTHS: core::ops::Range<u32> = 64..u32::MAX;

    /// The length of every non-final ciphertext segment.
    pub closed spec fn segment_length(self) -> int {
        self.ciphertext_segment_length as int
    }

    /// The plaintext length of every non-final segment.
    pub open spec fn payload_length(self) -> int {
        self.segment_length() - SEGMENT_OVERHEAD
    }

    /// The segment length lies in the supported range.
    #[verifier::type_invariant]
    pub open spec fn wf(self) -> bool {
        Self::VALID_SEGMENT_LENGTHS.start <= self.segment_length()
            < Self::VALID_SEGMENT_LENGTHS.end
    }

    /// A parameter set is its segment length.
    pub proof fn lemma_determined_by_segment_length(self, other: Parameters)
        ensures
            self.segment_length() == other.segment_length() <==> self == other,
    {
    }

    /// Every segment length is that of a parameter set.
    pub proof fn lemma_every_segment_length(length: u32) -> (parameters: Parameters)
        ensures
            parameters.segment_length() == length,
    {
        Parameters { ciphertext_segment_length: length }
    }

    /// FLOE with 64-byte encrypted segments.
    pub fn segment_64_b() -> (parameters: Self)
        ensures
            parameters.segment_length() == 64,
    {
        Self { ciphertext_segment_length: 64 }
    }

    /// FLOE with 4 KiB encrypted segments.
    pub fn segment_4_kib() -> (parameters: Self)
        ensures
            parameters.segment_length() == 4 * 1024,
    {
        Self { ciphertext_segment_length: 4 * 1024 }
    }

    /// FLOE with 1 MiB encrypted segments.
    pub fn segment_1_mib() -> (parameters: Self)
        ensures
            parameters.segment_length() == 1024 * 1024,
    {
        Self { ciphertext_segment_length: 1024 * 1024 }
    }

    /// FLOE with 4 MiB encrypted segments.
    pub fn segment_4_mib() -> (parameters: Self)
        ensures
            parameters.segment_length() == 4 * 1024 * 1024,
    {
        Self { ciphertext_segment_length: 4 * 1024 * 1024 }
    }

    /// FLOE with 5 MiB encrypted segments.
    pub fn segment_5_mib() -> (parameters: Self)
        ensures
            parameters.segment_length() == 5 * 1024 * 1024,
    {
        Self { ciphertext_segment_length: 5 * 1024 * 1024 }
    }

    /// FLOE with 8 MiB encrypted segments.
    pub fn segment_8_mib() -> (parameters: Self)
        ensures
            parameters.segment_length() == 8 * 1024 * 1024,
    {
        Self { ciphertext_segment_length: 8 * 1024 * 1024 }
    }

    /// FLOE with 16 MiB encrypted segments.
    pub fn segment_16_mib() -> (parameters: Self)
        ensures
            parameters.segment_length() == 16 * 1024 * 1024,
    {
        Self { ciphertext_segment_length: 16 * 1024 * 1024 }
    }

    /// Construct a [`Parameters`] instance with the provided segment length in bytes.
    /// `segment_len` can be any value in the range [`Parameters::VALID_SEGMENT_LENGTHS`].
    ///
    /// # Errors
    ///
    /// Returns [`Error::InvalidParameters`] when `segment_len` is outside the
    /// supported range.
    pub fn from_segment_length(segment_len: u32) -> (result: Result<Self, Error>)
        ensures
            match result {
                Ok(parameters) => Self::VALID_SEGMENT_LENGTHS.start <= segment_len
                    < Self::VALID_SEGMENT_LENGTHS.end && parameters.segment_length()
                    == segment_len,
                Err(error) => !(Self::VALID_SEGMENT_LENGTHS.start <= segment_len
                    < Self::VALID_SEGMENT_LENGTHS.end) && error == Error::InvalidParameters,
            },
    {
        let valid = Self::VALID_SEGMENT_LENGTHS;
        if segment_len < valid.start || segment_len >= valid.end {
            return Err(Error::InvalidParameters);
        }
        Ok(Self { ciphertext_segment_length: segment_len })
    }

    /// Returns the exact length of every non-final ciphertext segment.
    pub fn ciphertext_segment_length(self) -> (length: usize)
        ensures
            length == self.segment_length(),
            self.wf(),
    {
        proof {
            use_type_invariant(&self);
        }
        self.ciphertext_segment_length as usize
    }

    /// Returns the plaintext length of every non-final segment and the maximum
    /// plaintext length of a final segment.
    pub fn plaintext_segment_length(self) -> (length: usize)
        ensures
            length == self.payload_length(),
            self.wf(),
    {
        proof {
            use_type_invariant(&self);
        }
        (self.ciphertext_segment_length - SEGMENT_OVERHEAD_U32) as usize
    }

    /// The error, if any, of a ciphertext segment that has `length` bytes.
    pub open spec fn segment_length_error(self, length: int) -> Option<Error> {
        if SEGMENT_OVERHEAD <= length <= self.segment_length() {
            None
        } else {
            Some(
                Error::InvalidCiphertextLength {
                    actual: length as usize,
                    required: LengthRequirement::Between {
                        minimum: SEGMENT_OVERHEAD,
                        maximum: self.segment_length() as usize,
                    },
                },
            )
        }
    }

    pub(crate) fn validate_ciphertext_segment_length(self, length: usize) -> (result: Result<
        (),
        Error,
    >)
        ensures
            match result {
                Ok(_) => self.segment_length_error(length as int) is None,
                Err(error) => self.segment_length_error(length as int) == Some(error),
            },
            self.wf(),
    {
        let maximum = self.ciphertext_segment_length();
        if SEGMENT_OVERHEAD <= length && length <= maximum {
            Ok(())
        } else {
            Err(
                Error::InvalidCiphertextLength {
                    actual: length,
                    required: LengthRequirement::Between { minimum: SEGMENT_OVERHEAD, maximum },
                },
            )
        }
    }

    /// The encoding `AEAD_ID || KDF_ID || ENC_SEG_LEN || FLOE_IV_LEN`.
    pub open spec fn encoding(self) -> Seq<u8> {
        seq![0u8, 0u8] + be32(self.segment_length() as u32) + be32(32)
    }

    /// Encodes the parameters as `AEAD_ID || KDF_ID || ENC_SEG_LEN || FLOE_IV_LEN`.
    pub fn encode(self) -> (encoded: [u8; ENCODED_PARAMETERS_LENGTH])
        ensures
            encoded@ == self.encoding(),
    {
        let segment_length = encode_be32(self.ciphertext_segment_length);
        let iv_length = encode_be32(FLOE_IV_LENGTH_U32);
        let encoded = [
            0u8,
            0u8,
            segment_length[0],
            segment_length[1],
            segment_length[2],
            segment_length[3],
            iv_length[0],
            iv_length[1],
            iv_length[2],
            iv_length[3],
        ];
        assert(encoded@ =~= self.encoding());
        encoded
    }

    /// The parameter set that `encoded` is the encoding of.
    #[verifier::opaque]
    pub open spec fn decoding(encoded: Seq<u8>) -> Option<Parameters> {
        if exists|parameters: Parameters| #[trigger]
            parameters.encoding() == encoded && parameters.wf() {
            Some(
                choose|parameters: Parameters| #[trigger]
                    parameters.encoding() == encoded && parameters.wf(),
            )
        } else {
            None
        }
    }

    /// Every supported parameter set comes back from its encoding.
    pub proof fn lemma_encoding_round_trip(self)
        requires
            self.wf(),
        ensures
            Self::decoding(self.encoding()) == Some(self),
    {
        reveal(Parameters::decoding);
        let other = Self::decoding(self.encoding())->0;
        assert(other.encoding() == self.encoding());
        Self::lemma_encoding_injective(self, other);
    }

    /// What is decoded is supported, and has the encoding that it was decoded
    /// from.
    pub proof fn lemma_decoding(encoded: Seq<u8>)
        ensures
            Self::decoding(encoded) matches Some(parameters) ==> parameters.wf()
                && parameters.encoding() == encoded,
    {
        reveal(Parameters::decoding);
    }

    /// Two supported parameter sets with one encoding are equal.
    pub proof fn lemma_encoding_injective(left: Parameters, right: Parameters)
        requires
            left.wf(),
            right.wf(),
            left.encoding() == right.encoding(),
        ensures
            left == right,
    {
        assert(left.encoding().subrange(2, 6) =~= be32(left.segment_length() as u32));
        assert(right.encoding().subrange(2, 6) =~= be32(right.segment_length() as u32));
        crate::bytes::lemma_be32_round_trip(left.segment_length() as u32);
        crate::bytes::lemma_be32_round_trip(right.segment_length() as u32);
    }

    /// Decodes an encoded parameter set.
    ///
    /// # Errors
    ///
    /// Returns [`Error::InvalidHeaderParameters`] when no supported parameter
    /// set has this encoding.
    pub fn decode(encoded: [u8; ENCODED_PARAMETERS_LENGTH]) -> (result: Result<Self, Error>)
        ensures
            match result {
                Ok(parameters) => Self::decoding(encoded@) == Some(parameters)
                    && parameters.encoding() == encoded@ && parameters.wf(),
                Err(error) => Self::decoding(encoded@) is None && error
                    == Error::InvalidHeaderParameters,
            },
    {
        let field = [encoded[2], encoded[3], encoded[4], encoded[5]];
        assert(field@ =~= encoded@.subrange(2, 6));
        let segment_length = decode_be32(field);
        proof {
            reveal(Parameters::decoding);
            assert forall|parameters: Parameters| #[trigger]
                parameters.encoding() == encoded@ && parameters.wf() implies from_be32(field@)
                == parameters.segment_length() by {
                assert(parameters.encoding().subrange(2, 6) =~= be32(
                    parameters.segment_length() as u32,
                ));
                crate::bytes::lemma_be32_round_trip(parameters.segment_length() as u32);
            }
        }
        let parameters = match Self::from_segment_length(segment_length) {
            Ok(parameters) => parameters,
            Err(_) => {
                return Err(Error::InvalidHeaderParameters);
            },
        };
        proof {
            use_type_invariant(&parameters);
        }
        if bytes_equal(&parameters.encode(), &encoded) {
            proof {
                parameters.lemma_encoding_round_trip();
            }
            Ok(parameters)
        } else {
            Err(Error::InvalidHeaderParameters)
        }
    }

    /// The position whose segment key `position` uses: the last multiple of
    /// the rotation interval that is not above it.
    pub open spec fn key_position(position: u64) -> u64 {
        (position - position % ROTATION_INTERVAL) as u64
    }

    /// Segment keys rotate: positions share a key position exactly where they
    /// lie in one rotation interval, and the key position is the first position
    /// of that interval.
    pub proof fn lemma_keys_rotate(left: u64, right: u64)
        ensures
            Self::key_position(left) == left / ROTATION_INTERVAL * ROTATION_INTERVAL,
            Self::key_position(left) == Self::key_position(right) <==> left / ROTATION_INTERVAL
                == right / ROTATION_INTERVAL,
            Self::key_position(Self::key_position(left)) == Self::key_position(left),
    {
        assert(left - left % 0x10_0000 == left / 0x10_0000 * 0x10_0000);
        assert(right - right % 0x10_0000 == right / 0x10_0000 * 0x10_0000);
    }

    /// Returns the position whose segment key `position` uses.
    pub fn masked_position(self, position: u64) -> (masked: u64)
        ensures
            masked == Self::key_position(position),
    {
        assert(position & 0xffff_ffff_fff0_0000 == position - position % 0x10_0000)
            by (bit_vector);
        position & ROTATION_MASK
    }
}

} // verus!
