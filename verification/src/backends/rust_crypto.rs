use crate::primitives::{GCM_MAX_AAD, GCM_MAX_PLAINTEXT};
use aes_gcm::aead::inout::InOutBuf;
use aes_gcm::aead::{AeadInOut, KeyInit, Nonce, Tag};
use aes_gcm::{Aes256Gcm, Error as AeadFailure};
use getrandom::Error as RandomFailure;
use hmac::digest::InvalidLength;
use hmac::{Hmac, Mac};
use rand_chacha::rand_core::{Rng, SeedableRng};
use rand_chacha::ChaCha12Rng;
use sha2::Sha384;
use vstd::prelude::*;

verus! {

/// The error of an aes-gcm operation. It holds nothing.
#[verifier::external_type_specification]
#[verifier::external_body]
pub struct ExAeadFailure(AeadFailure);

/// The error of a key of a length that an algorithm does not take.
#[verifier::external_type_specification]
#[verifier::external_body]
pub struct ExInvalidLength(InvalidLength);

/// The error of the system's source of random bytes.
#[verifier::external_type_specification]
#[verifier::external_body]
pub struct ExRandomFailure(RandomFailure);

/// The ChaCha12 generator of rand_chacha.
#[verifier::external_type_specification]
#[verifier::external_body]
pub struct ExChaCha12Rng(ChaCha12Rng);

/// `AeadInOut::encrypt_inout_detached` of aes-gcm for `Aes256Gcm`, in place:
/// the plaintext becomes its ciphertext, the tag goes to `tag`, and the two
/// open to the plaintext again. No other tag opens that ciphertext: opening
/// computes the tag from the ciphertext and compares. The call fails on nothing
/// but a plaintext or associated data of a length that AES-GCM does not take.
#[verifier::external_body]
pub(crate) fn seal(
    key: &[u8; 32],
    nonce: &[u8; 12],
    aad: &[u8],
    in_out: &mut [u8],
    tag: &mut [u8; 16],
) -> (result: Result<(), AeadFailure>)
    requires
        old(in_out)@.len() <= GCM_MAX_PLAINTEXT,
        aad@.len() <= GCM_MAX_AAD,
    ensures
        result is Ok,
        final(in_out)@.len() == old(in_out)@.len(),
        final(in_out)@ + final(tag)@ == crate::primitives::aes_256_gcm(
            key@,
            nonce@,
            aad@,
            old(in_out)@,
        ),
        crate::primitives::aes_256_gcm_open(key@, nonce@, aad@, final(in_out)@ + final(tag)@)
            == Some(old(in_out)@),
        crate::primitives::only_tag(key@, nonce@, aad@, final(in_out)@, final(tag)@),
{
    let key = Aes256Gcm::new(&(*key).into());
    let nonce = Nonce::<Aes256Gcm>::from(*nonce);
    let sealed = key.encrypt_inout_detached(&nonce, aad, in_out.into())?;
    tag.copy_from_slice(&sealed);
    Ok(())
}

/// `AeadInOut::decrypt_inout_detached` of aes-gcm for `Aes256Gcm`, from one
/// buffer to another: `output` takes the plaintext that ciphertext and tag were
/// made of, and the call fails where there is none. What `output` then holds
/// is not said.
#[verifier::external_body]
pub(crate) fn open(
    key: &[u8; 32],
    nonce: &[u8; 12],
    aad: &[u8],
    ciphertext: &[u8],
    tag: &[u8; 16],
    output: &mut [u8],
) -> (result: Result<(), AeadFailure>)
    requires
        ciphertext@.len() <= GCM_MAX_PLAINTEXT,
        aad@.len() <= GCM_MAX_AAD,
        old(output)@.len() == ciphertext@.len(),
    ensures
        final(output)@.len() == old(output)@.len(),
        match crate::primitives::aes_256_gcm_open(key@, nonce@, aad@, ciphertext@ + tag@) {
            Some(plaintext) => result is Ok && final(output)@ == plaintext,
            None => result is Err,
        },
{
    let key = Aes256Gcm::new(&(*key).into());
    let nonce = Nonce::<Aes256Gcm>::from(*nonce);
    let in_out = InOutBuf::new(ciphertext, output).map_err(|_| AeadFailure)?;
    key.decrypt_inout_detached(&nonce, aad, in_out, &Tag::<Aes256Gcm>::from(*tag))
}

/// `AeadInOut::decrypt_inout_detached` of aes-gcm for `Aes256Gcm`, in place:
/// the ciphertext becomes the plaintext that it and the tag were made of, and
/// the call fails where there is none. What `in_out` then holds is not said.
#[verifier::external_body]
pub(crate) fn open_in_place(
    key: &[u8; 32],
    nonce: &[u8; 12],
    aad: &[u8],
    tag: &[u8; 16],
    in_out: &mut [u8],
) -> (result: Result<(), AeadFailure>)
    requires
        old(in_out)@.len() <= GCM_MAX_PLAINTEXT,
        aad@.len() <= GCM_MAX_AAD,
    ensures
        final(in_out)@.len() == old(in_out)@.len(),
        match crate::primitives::aes_256_gcm_open(key@, nonce@, aad@, old(in_out)@ + tag@) {
            Some(plaintext) => result is Ok && final(in_out)@ == plaintext,
            None => result is Err,
        },
{
    let key = Aes256Gcm::new(&(*key).into());
    let nonce = Nonce::<Aes256Gcm>::from(*nonce);
    key.decrypt_inout_detached(&nonce, aad, in_out.into(), &Tag::<Aes256Gcm>::from(*tag))
}

/// `Mac::update` and `Mac::finalize` of hmac for `Hmac<Sha384>`: the code of
/// `message` under `key`. HMAC takes keys of every length.
#[verifier::external_body]
pub(crate) fn hmac(key: &[u8], message: &[u8]) -> (result: Result<[u8; 48], InvalidLength>)
    ensures
        result is Ok,
        result->Ok_0@ == crate::primitives::hmac_sha384(key@, message@),
{
    let mut hmac = <Hmac<Sha384> as KeyInit>::new_from_slice(key)?;
    hmac.update(message);
    Ok(hmac.finalize().into_bytes().into())
}

/// `getrandom::fill`: `output` takes random bytes from the system, or the call
/// fails.
#[verifier::external_body]
pub(crate) fn system_random(output: &mut [u8]) -> (result: Result<(), RandomFailure>)
    ensures
        final(output)@.len() == old(output)@.len(),
{
    getrandom::fill(output)
}

/// `ChaCha12Rng::from_seed` of rand_chacha. What the generator will produce is
/// left unsaid.
#[verifier::external_body]
pub(crate) fn generator(seed: [u8; 32]) -> ChaCha12Rng {
    ChaCha12Rng::from_seed(seed)
}

/// `Rng::fill_bytes` of `ChaCha12Rng`: `output` takes the generator's next
/// bytes. Which bytes those are is left unsaid.
#[verifier::external_body]
pub(crate) fn generate(rng: &mut ChaCha12Rng, output: &mut [u8])
    ensures
        final(output)@.len() == old(output)@.len(),
{
    rng.fill_bytes(output)
}

} // verus!
