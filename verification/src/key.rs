use crate::backends::ProviderRng;
use crate::bytes::{array_at, array_of, lemma_array_of};
use crate::error::Error;
use crate::provider::Provider;
use crate::secret::zeroize;
use vstd::prelude::*;

verus! {

/// A 256-bit FLOE key that zeroizes its owned bytes on drop.
///
/// Use [`Key::generate`] for a fresh random key or [`Key::from_bytes`] when
/// importing existing key material.
pub struct Key {
    bytes: [u8; 32],
    provider: Option<Provider>,
}

impl View for Key {
    type V = Seq<u8>;

    closed spec fn view(&self) -> Seq<u8> {
        self.bytes@
    }
}

impl Key {
    /// Required FLOE key length in bytes.
    pub const LEN: usize = 32;

    /// The provider that this key was bound to.
    pub closed spec fn bound(self) -> Option<Provider> {
        self.provider
    }

    /// The provider that this key works with.
    pub open spec fn resolved(self) -> Option<Provider> {
        match self.bound() {
            Some(provider) => Some(provider),
            None => Provider::default_choice(),
        }
    }

    /// Generates a new 256-bit FLOE key with the build default provider.
    ///
    /// # Errors
    ///
    /// Returns [`Error::ProviderSelectionRequired`] when multiple providers
    /// are compiled, which is so in this build: use
    /// [`Self::generate_with_provider`]. With one provider, returns
    /// [`Error::RngFailure`] if it cannot obtain secure randomness.
    pub fn generate() -> (result: Result<Self, Error>)
        ensures
            match Provider::default_choice() {
                Some(provider) => match result {
                    Ok(key) => key.bound() == Some(provider),
                    Err(error) => error == Error::RngFailure,
                },
                None => result is Err && result->Err_0 == Error::ProviderSelectionRequired,
            },
    {
        match Provider::build_default() {
            Some(provider) => Self::generate_with_provider(provider),
            None => Err(Error::ProviderSelectionRequired),
        }
    }

    /// Generates a new 256-bit FLOE key bound to `provider`.
    ///
    /// # Errors
    ///
    /// Returns [`Error::RngFailure`] if the provider cannot obtain secure
    /// randomness.
    pub fn generate_with_provider(provider: Provider) -> (result: Result<Self, Error>)
        ensures
            match result {
                Ok(key) => key.bound() == Some(provider),
                Err(error) => error == Error::RngFailure,
            },
    {
        let mut rng = ProviderRng::new(provider);
        let mut bytes = [0u8; 32];
        rng.fill(&mut bytes)?;
        let key = Self::from_bytes_with_provider(bytes, provider);
        zeroize(&mut bytes);
        Ok(key)
    }

    /// Imports an existing 256-bit key using the build default provider.
    ///
    /// Provider resolution is deferred until [`Self::provider`] or the first
    /// cryptographic operation.
    pub fn from_bytes(bytes: [u8; 32]) -> (key: Self)
        ensures
            key@ == bytes@,
            key.bound() is None,
    {
        Self { bytes, provider: None }
    }

    /// Imports an existing 256-bit key bound to `provider`.
    pub fn from_bytes_with_provider(bytes: [u8; 32], provider: Provider) -> (key: Self)
        ensures
            key@ == bytes@,
            key.bound() == Some(provider),
    {
        Self { bytes, provider: Some(provider) }
    }

    /// Returns the raw secret key bytes. Handle with care.
    pub fn as_bytes(&self) -> (bytes: &[u8; 32])
        ensures
            bytes@ == self@,
    {
        &self.bytes
    }

    /// Returns the concrete provider this key will use.
    ///
    /// # Errors
    ///
    /// Returns [`Error::ProviderSelectionRequired`] when this key has no
    /// explicit provider and multiple providers are compiled.
    pub fn provider(&self) -> (result: Result<Provider, Error>)
        ensures
            match self.resolved() {
                Some(provider) => result == Ok::<Provider, Error>(provider),
                None => result == Err::<Provider, Error>(Error::ProviderSelectionRequired),
            },
    {
        match self.provider {
            Some(provider) => Ok(provider),
            None => match Provider::build_default() {
                Some(provider) => Ok(provider),
                None => Err(Error::ProviderSelectionRequired),
            },
        }
    }
}

impl Clone for Key {
    fn clone(&self) -> (copy: Self)
        ensures
            copy@ == self@,
            copy.bound() == self.bound(),
    {
        Self { bytes: self.bytes, provider: self.provider }
    }
}

impl Drop for Key {
    fn drop(&mut self)
        ensures
            forall|i: int| 0 <= i < final(self)@.len() ==> final(self)@[i] == 0,
        opens_invariants none
        no_unwind
    {
        zeroize(&mut self.bytes);
    }
}

impl From<[u8; 32]> for Key {
    fn from(bytes: [u8; 32]) -> (key: Self)
        ensures
            key@ == bytes@,
            key.bound() is None,
    {
        Self { bytes, provider: None }
    }
}

impl vstd::std_specs::convert::FromSpecImpl<[u8; 32]> for Key {
    open spec fn obeys_from_spec() -> bool {
        true
    }

    closed spec fn from_spec(bytes: [u8; 32]) -> Self {
        Key { bytes, provider: None }
    }
}

impl<'a> TryFrom<&'a [u8]> for Key {
    type Error = Error;

    fn try_from(bytes: &'a [u8]) -> (result: Result<Self, Error>)
        ensures
            match result {
                Ok(key) => bytes@.len() == 32 && key@ == bytes@ && key.bound() is None,
                Err(error) => bytes@.len() != 32 && error == (Error::InvalidKeyLength {
                    actual: bytes@.len() as usize,
                }),
            },
    {
        if bytes.len() != 32 {
            return Err(Error::InvalidKeyLength { actual: bytes.len() });
        }
        let mut array = array_at::<32>(bytes, 0);
        assert(array@ =~= bytes@);
        proof {
            lemma_array_of(array);
        }
        let key = Self { bytes: array, provider: None };
        zeroize(&mut array);
        Ok(key)
    }
}

impl<'a> vstd::std_specs::convert::TryFromSpecImpl<&'a [u8]> for Key {
    open spec fn obeys_try_from_spec() -> bool {
        true
    }

    closed spec fn try_from_spec(bytes: &'a [u8]) -> Result<Self, Error> {
        if bytes@.len() == 32 {
            Ok(Key { bytes: array_of(bytes@), provider: None })
        } else {
            Err(Error::InvalidKeyLength { actual: bytes@.len() as usize })
        }
    }
}

} // verus!
