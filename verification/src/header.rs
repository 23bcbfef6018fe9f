use crate::bytes::{array_at, array_of, lemma_array_of, range_mut};
use crate::error::Error;
use crate::model::header_iv;
use crate::parameters::{
    Parameters, ENCODED_PARAMETERS_LENGTH, FLOE_IV_LENGTH, HEADER_LENGTH, HEADER_TAG_LENGTH,
};
use vstd::prelude::*;

verus! {

/// A complete fixed-size FLOE header.
///
/// The encoded parameters are not authenticated until decryption
/// initialization succeeds.
#[derive(Clone, Copy, Debug, PartialEq, Eq)]
pub struct Header {
    bytes: [u8; HEADER_LENGTH],
}

impl View for Header {
    type V = Seq<u8>;

    closed spec fn view(&self) -> Seq<u8> {
        self.bytes@
    }
}

impl Header {
    /// Length of every FLOE header in bytes.
    pub const LEN: usize = HEADER_LENGTH;

    const FLOE_IV_OFFSET: usize = ENCODED_PARAMETERS_LENGTH;

    const TAG_OFFSET: usize = ENCODED_PARAMETERS_LENGTH + FLOE_IV_LENGTH;

    /// Every header has one length.
    pub proof fn lemma_length(&self)
        ensures
            self@.len() == HEADER_LENGTH,
    {
    }

    /// Returns the complete header bytes.
    pub fn as_bytes(&self) -> (bytes: &[u8; HEADER_LENGTH])
        ensures
            bytes@ == self@,
            self@.len() == HEADER_LENGTH,
    {
        &self.bytes
    }

    /// Decodes the parameter set declared by this header.
    ///
    /// This does not authenticate the header. Do not trust the result until
    /// [`crate::low_level::start_decryption`] or
    /// [`crate::low_level::start_decryption_inferred`] successfully
    /// authenticates the header.
    ///
    /// # Errors
    ///
    /// Returns [`Error::InvalidHeaderParameters`] if the encoded parameter set
    /// is not supported.
    pub fn unverified_parameters(&self) -> (result: Result<Parameters, Error>)
        ensures
            match Parameters::decoding(self@.take(ENCODED_PARAMETERS_LENGTH as int)) {
                Some(parameters) => result == Ok::<Parameters, Error>(parameters),
                None => result == Err::<Parameters, Error>(Error::InvalidHeaderParameters),
            },
    {
        Parameters::decode(self.encoded_parameters())
    }

    /// Puts a header together from its three fields.
    pub fn from_fields(
        encoded: &[u8; ENCODED_PARAMETERS_LENGTH],
        floe_iv: &[u8; FLOE_IV_LENGTH],
        tag: &[u8; HEADER_TAG_LENGTH],
    ) -> (header: Self)
        ensures
            header@ == encoded@ + floe_iv@ + tag@,
    {
        let mut bytes = [0u8; HEADER_LENGTH];
        range_mut(&mut bytes, 0, Self::FLOE_IV_OFFSET).copy_from_slice(encoded);
        range_mut(&mut bytes, Self::FLOE_IV_OFFSET, Self::TAG_OFFSET).copy_from_slice(floe_iv);
        range_mut(&mut bytes, Self::TAG_OFFSET, HEADER_LENGTH).copy_from_slice(tag);
        assert(bytes@ =~= encoded@ + floe_iv@ + tag@);
        Self { bytes }
    }

    pub(crate) fn encoded_parameters(&self) -> (encoded: [u8; ENCODED_PARAMETERS_LENGTH])
        ensures
            encoded@ == self@.take(ENCODED_PARAMETERS_LENGTH as int),
    {
        array_at::<ENCODED_PARAMETERS_LENGTH>(&self.bytes, 0)
    }

    pub(crate) fn floe_iv(&self) -> (iv: [u8; FLOE_IV_LENGTH])
        ensures
            iv@ == header_iv(self@),
    {
        array_at::<FLOE_IV_LENGTH>(&self.bytes, Self::FLOE_IV_OFFSET)
    }

    pub(crate) fn tag(&self) -> (tag: [u8; HEADER_TAG_LENGTH])
        ensures
            tag@ == self@.skip(ENCODED_PARAMETERS_LENGTH + FLOE_IV_LENGTH),
            self@.len() == HEADER_LENGTH,
    {
        let tag = array_at::<HEADER_TAG_LENGTH>(&self.bytes, Self::TAG_OFFSET);
        assert(tag@ =~= self@.skip(ENCODED_PARAMETERS_LENGTH + FLOE_IV_LENGTH));
        tag
    }
}

impl AsRef<[u8]> for Header {
    fn as_ref(&self) -> (bytes: &[u8])
        ensures
            bytes@ == self@,
    {
        &self.bytes
    }
}

impl From<[u8; HEADER_LENGTH]> for Header {
    fn from(bytes: [u8; HEADER_LENGTH]) -> (header: Self)
        ensures
            header@ == bytes@,
    {
        Self { bytes }
    }
}

impl vstd::std_specs::convert::FromSpecImpl<[u8; HEADER_LENGTH]> for Header {
    open spec fn obeys_from_spec() -> bool {
        true
    }

    closed spec fn from_spec(bytes: [u8; HEADER_LENGTH]) -> Self {
        Header { bytes }
    }
}

impl From<Header> for [u8; HEADER_LENGTH] {
    fn from(header: Header) -> (bytes: [u8; HEADER_LENGTH])
        ensures
            bytes@ == header@,
    {
        header.bytes
    }
}

impl vstd::std_specs::convert::FromSpecImpl<Header> for [u8; HEADER_LENGTH] {
    open spec fn obeys_from_spec() -> bool {
        true
    }

    closed spec fn from_spec(header: Header) -> [u8; HEADER_LENGTH] {
        header.bytes
    }
}

impl<'a> TryFrom<&'a [u8]> for Header {
    type Error = Error;

    fn try_from(bytes: &'a [u8]) -> (result: Result<Self, Error>)
        ensures
            match result {
                Ok(header) => bytes@.len() == HEADER_LENGTH && header@ == bytes@,
                Err(error) => bytes@.len() != HEADER_LENGTH && error
                    == (Error::InvalidHeaderLength { actual: bytes@.len() as usize }),
            },
    {
        if bytes.len() != HEADER_LENGTH {
            return Err(Error::InvalidHeaderLength { actual: bytes.len() });
        }
        let array = array_at::<HEADER_LENGTH>(bytes, 0);
        assert(array@ =~= bytes@);
        proof {
            lemma_array_of(array);
        }
        Ok(Self { bytes: array })
    }
}

impl<'a> vstd::std_specs::convert::TryFromSpecImpl<&'a [u8]> for Header {
    open spec fn obeys_try_from_spec() -> bool {
        true
    }

    closed spec fn try_from_spec(bytes: &'a [u8]) -> Result<Self, Error> {
        if bytes@.len() == HEADER_LENGTH {
            Ok(Header { bytes: array_of(bytes@) })
        } else {
            Err(Error::InvalidHeaderLength { actual: bytes@.len() as usize })
        }
    }
}

} // verus!
