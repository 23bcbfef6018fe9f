mod aws_lc;
mod ring_provider;
mod rust_crypto;

use crate::bytes::{array_at, concat, join};
use crate::error::Error;
use crate::primitives::{
    aes_256_gcm, aes_256_gcm_open, hkdf_expand, only_tag, GCM_MAX_AAD, GCM_MAX_PLAINTEXT,
};
use crate::provider::Provider;
use crate::secret::{zeroize, SecretBytes};
use rand_chacha::ChaCha12Rng;
use vstd::prelude::*;

verus! {

/// The longest output of one HKDF block.
pub const KDF_MAX_OUTPUT_LENGTH: usize = 48;

/// The longest key that every provider's KDF takes.
pub const KDF_MAX_KEY_LENGTH: usize = 64;

/// An AES-256-GCM key that a provider works with.
pub struct AeadKey {
    provider: Provider,
    key: SecretBytes<32>,
}

impl View for AeadKey {
    type V = Seq<u8>;

    closed spec fn view(&self) -> Seq<u8> {
        self.key@
    }
}

impl AeadKey {
    pub(crate) fn new(provider: Provider, key: &[u8; 32]) -> (aead: Self)
        ensures
            aead@ == key@,
    {
        AeadKey { provider, key: SecretBytes::new(*key) }
    }

    /// Turns the plaintext in `in_out` into its ciphertext and `tag`.
    pub(crate) fn seal(
        &self,
        nonce: &[u8; 12],
        aad: &[u8],
        in_out: &mut [u8],
        tag: &mut [u8; 16],
    ) -> (result: Result<(), Error>)
        requires
            old(in_out)@.len() <= GCM_MAX_PLAINTEXT,
            aad@.len() <= GCM_MAX_AAD,
        ensures
            result is Ok,
            final(in_out)@.len() == old(in_out)@.len(),
            final(in_out)@ + final(tag)@ == aes_256_gcm(self@, nonce@, aad@, old(in_out)@),
            aes_256_gcm_open(self@, nonce@, aad@, final(in_out)@ + final(tag)@) == Some(
                old(in_out)@,
            ),
            only_tag(self@, nonce@, aad@, final(in_out)@, final(tag)@),
    {
        let key = self.key.expose_bytes();
        let sealed = match self.provider {
            Provider::AwsLcRs => aws_lc::seal(key, nonce, aad, in_out, tag).is_ok(),
            Provider::Ring => ring_provider::seal(key, nonce, aad, in_out, tag).is_ok(),
            Provider::RustCrypto => rust_crypto::seal(key, nonce, aad, in_out, tag).is_ok(),
        };
        if sealed {
            Ok(())
        } else {
            Err(Error::CryptoFailure)
        }
    }

    /// Writes the ciphertext of `plaintext` and its tag to `output`.
    pub(crate) fn seal_into(
        &self,
        nonce: &[u8; 12],
        aad: &[u8],
        plaintext: &[u8],
        output: &mut [u8],
    ) -> (result: Result<(), Error>)
        requires
            plaintext@.len() <= GCM_MAX_PLAINTEXT,
            aad@.len() <= GCM_MAX_AAD,
            old(output)@.len() == plaintext@.len() + 16,
        ensures
            result is Ok,
            final(output)@.len() == old(output)@.len(),
            final(output)@ == aes_256_gcm(self@, nonce@, aad@, plaintext@),
            aes_256_gcm_open(self@, nonce@, aad@, final(output)@) == Some(plaintext@),
            only_tag(
                self@,
                nonce@,
                aad@,
                final(output)@.take(plaintext@.len() as int),
                final(output)@.skip(plaintext@.len() as int),
            ),
    {
        let (ciphertext, tag_bytes) = output.split_at_mut(plaintext.len());
        if self.provider == Provider::AwsLcRs {
            let key = self.key.expose_bytes();
            match aws_lc::seal_scatter(key, nonce, aad, plaintext, ciphertext, tag_bytes) {
                Ok(_) => {},
                Err(_) => {
                    return Err(Error::CryptoFailure);
                },
            }
        } else {
            ciphertext.copy_from_slice(plaintext);
            let mut tag = [0u8; 16];
            self.seal(nonce, aad, ciphertext, &mut tag)?;
            tag_bytes.copy_from_slice(&tag);
        }
        let ghost sealed = ciphertext@;
        let ghost tag = tag_bytes@;
        assert(output@.take(plaintext@.len() as int) =~= sealed);
        assert(output@.skip(plaintext@.len() as int) =~= tag);
        Ok(())
    }

    /// Writes the plaintext that `ciphertext` and `tag` were made of to
    /// `output`.
    pub(crate) fn open(
        &self,
        nonce: &[u8; 12],
        aad: &[u8],
        ciphertext: &[u8],
        tag: &[u8; 16],
        output: &mut [u8],
    ) -> (result: Result<(), Error>)
        requires
            ciphertext@.len() <= GCM_MAX_PLAINTEXT,
            aad@.len() <= GCM_MAX_AAD,
            old(output)@.len() == ciphertext@.len(),
        ensures
            final(output)@.len() == old(output)@.len(),
            match aes_256_gcm_open(self@, nonce@, aad@, ciphertext@ + tag@) {
                Some(plaintext) => result is Ok && final(output)@ == plaintext,
                None => result == Err::<(), Error>(Error::AuthenticationFailed),
            },
    {
        let key = self.key.expose_bytes();
        let opened = match self.provider {
            Provider::AwsLcRs => aws_lc::open(key, nonce, aad, ciphertext, tag, output).is_ok(),
            Provider::Ring => {
                output.copy_from_slice(ciphertext);
                ring_provider::open_in_place(key, nonce, aad, tag, output).is_ok()
            },
            Provider::RustCrypto => {
                rust_crypto::open(key, nonce, aad, ciphertext, tag, output).is_ok()
            },
        };
        if opened {
            Ok(())
        } else {
            Err(Error::AuthenticationFailed)
        }
    }

    /// Turns the ciphertext in `in_out` into the plaintext that it and `tag`
    /// were made of.
    pub(crate) fn open_in_place(
        &self,
        nonce: &[u8; 12],
        aad: &[u8],
        tag: &[u8; 16],
        in_out: &mut [u8],
    ) -> (result: Result<(), Error>)
        requires
            old(in_out)@.len() <= GCM_MAX_PLAINTEXT,
            aad@.len() <= GCM_MAX_AAD,
        ensures
            final(in_out)@.len() == old(in_out)@.len(),
            match aes_256_gcm_open(self@, nonce@, aad@, old(in_out)@ + tag@) {
                Some(plaintext) => result is Ok && final(in_out)@ == plaintext,
                None => result == Err::<(), Error>(Error::AuthenticationFailed),
            },
    {
        let key = self.key.expose_bytes();
        let opened = match self.provider {
            Provider::AwsLcRs => aws_lc::open_in_place(key, nonce, aad, tag, in_out).is_ok(),
            Provider::Ring => ring_provider::open_in_place(key, nonce, aad, tag, in_out).is_ok(),
            Provider::RustCrypto => {
                rust_crypto::open_in_place(key, nonce, aad, tag, in_out).is_ok()
            },
        };
        if opened {
            Ok(())
        } else {
            Err(Error::AuthenticationFailed)
        }
    }
}

fn hkdf_block_from_hmac(key: &[u8], info: &[u8]) -> (result: Result<[u8; 48], Error>)
    ensures
        result matches Ok(block) && block@ == crate::primitives::hmac_sha384(key@, info@.push(1)),
{
    let mut message: Vec<u8> = Vec::new();
    message.extend_from_slice(info);
    message.push(1);
    assert(message@ =~= info@.push(1));
    match rust_crypto::hmac(key, message.as_slice()) {
        Ok(block) => Ok(block),
        Err(_) => Err(Error::CryptoFailure),
    }
}

impl Provider {
    /// Derives `N` bytes from `key` and the concatenation of the parts of
    /// `info` by HKDF-Expand with HMAC-SHA-384.
    ///
    /// # Errors
    ///
    /// Returns [`Error::CryptoFailure`] when `N` is more than one block.
    pub(crate) fn kdf_expand<const N: usize>(self, key: &[u8], info: &[&[u8]]) -> (result: Result<
        [u8; N],
        Error,
    >)
        requires
            key@.len() <= KDF_MAX_KEY_LENGTH,
        ensures
            match result {
                Ok(output) => N <= KDF_MAX_OUTPUT_LENGTH && output@ == hkdf_expand(
                    key@,
                    concat(info@),
                    N as int,
                ),
                Err(error) => N > KDF_MAX_OUTPUT_LENGTH && error == Error::CryptoFailure,
            },
    {
        if N > KDF_MAX_OUTPUT_LENGTH {
            return Err(Error::CryptoFailure);
        }
        let info = join(info);
        let expanded = match self {
            Provider::AwsLcRs => match aws_lc::hkdf_block(key, info.as_slice()) {
                Ok(block) => Ok(block),
                Err(_) => Err(Error::CryptoFailure),
            },
            Provider::Ring => match ring_provider::hkdf_block(key, info.as_slice()) {
                Ok(block) => Ok(block),
                Err(_) => Err(Error::CryptoFailure),
            },
            Provider::RustCrypto => hkdf_block_from_hmac(key, info.as_slice()),
        };
        let mut block = expanded?;
        let output = array_at::<N>(&block, 0);
        assert(output@ =~= block@.take(N as int));
        zeroize(&mut block);
        Ok(output)
    }
}

/// The random generator of a provider.
pub enum ProviderRng {
    /// The generator of aws-lc-rs.
    AwsLcRs,
    /// The generator of ring.
    Ring,
    /// A ChaCha12 generator, seeded by the system when it is first used.
    RustCrypto(Option<ChaCha12Rng>),
}

impl ProviderRng {
    /// The provider whose generator this is.
    pub open spec fn provider(self) -> Provider {
        match self {
            ProviderRng::AwsLcRs => Provider::AwsLcRs,
            ProviderRng::Ring => Provider::Ring,
            ProviderRng::RustCrypto(_) => Provider::RustCrypto,
        }
    }

    /// Constructs the generator of `provider`, which has no seed yet.
    pub fn new(provider: Provider) -> (rng: Self)
        ensures
            rng.provider() == provider,
            !rng.is_seeded(),
    {
        match provider {
            Provider::AwsLcRs => ProviderRng::AwsLcRs,
            Provider::Ring => ProviderRng::Ring,
            Provider::RustCrypto => ProviderRng::RustCrypto(None),
        }
    }

    /// Whether this is a ChaCha12 generator that has its seed.
    pub open spec fn is_seeded(self) -> bool {
        self matches ProviderRng::RustCrypto(Some(_))
    }

    /// Fills `output` with random bytes. Nothing is said of what they are.
    ///
    /// A ChaCha12 generator asks the system for its seed the first time, and
    /// never again: a seeded one does not fail. Where the system gives no seed,
    /// generator and output stay as they were. When the generators of aws-lc-rs
    /// and ring fail is not said, nor what `output` then holds; they keep no
    /// state here.
    ///
    /// # Errors
    ///
    /// Returns [`Error::RngFailure`] when the source of random bytes fails.
    pub(crate) fn fill(&mut self, output: &mut [u8]) -> (result: Result<(), Error>)
        ensures
            final(self).provider() == old(self).provider(),
            final(output)@.len() == old(output)@.len(),
            result is Err ==> result == Err::<(), Error>(Error::RngFailure),
            old(self).is_seeded() ==> result is Ok,
            match old(self).provider() {
                Provider::RustCrypto => if result is Ok {
                    final(self).is_seeded()
                } else {
                    *final(self) == *old(self) && final(output)@ == old(output)@
                },
                _ => *final(self) == *old(self),
            },
    {
        match self {
            ProviderRng::AwsLcRs => match aws_lc::random(output) {
                Ok(_) => Ok(()),
                Err(_) => Err(Error::RngFailure),
            },
            ProviderRng::Ring => match ring_provider::random(output) {
                Ok(_) => Ok(()),
                Err(_) => Err(Error::RngFailure),
            },
            ProviderRng::RustCrypto(slot) => fill_from_generator(slot, output),
        }
    }

    /// The name of this generator.
    pub open spec fn text(self) -> Seq<char> {
        match self {
            ProviderRng::AwsLcRs => "aws-lc-rs"@,
            ProviderRng::Ring => "ring"@,
            ProviderRng::RustCrypto(_) => "chacha12"@,
        }
    }

    /// Returns the name of this generator.
    pub fn name(&self) -> (name: &'static str)
        ensures
            name@ == self.text(),
    {
        match self {
            ProviderRng::AwsLcRs => "aws-lc-rs",
            ProviderRng::Ring => "ring",
            ProviderRng::RustCrypto(_) => "chacha12",
        }
    }
}

fn fill_from_generator(slot: &mut Option<ChaCha12Rng>, output: &mut [u8]) -> (result: Result<
    (),
    Error,
>)
    ensures
        final(output)@.len() == old(output)@.len(),
        match result {
            Ok(_) => *final(slot) is Some,
            Err(error) => {
                &&& error == Error::RngFailure
                &&& *old(slot) is None
                &&& *final(slot) is None
                &&& final(output)@ == old(output)@
            },
        },
{
    let mut rng = match slot.take() {
        Some(rng) => rng,
        None => {
            let mut seed = [0u8; 32];
            match rust_crypto::system_random(&mut seed) {
                Ok(_) => {},
                Err(_) => {
                    return Err(Error::RngFailure);
                },
            }
            let rng = rust_crypto::generator(seed);
            zeroize(&mut seed);
            rng
        },
    };
    rust_crypto::generate(&mut rng, output);
    *slot = Some(rng);
    Ok(())
}

} // verus!
