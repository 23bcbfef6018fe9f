use crate::primitives::{GCM_MAX_AAD, GCM_MAX_PLAINTEXT};
use aws_lc_rs::aead::{Aad, LessSafeKey, Nonce, UnboundKey, AES_256_GCM};
use aws_lc_rs::error::Unspecified;
use aws_lc_rs::hkdf::{Prk, HKDF_SHA384};
use aws_lc_rs::rand::{SecureRandom, SystemRandom};
use vstd::prelude::*;

verus! {

/// The error of every aws-lc-rs operation. It holds nothing.
#[verifier::external_type_specification]
#[verifier::external_body]
pub struct ExUnspecified(Unspecified);

/// `LessSafeKey::seal_in_place_separate_tag` of aws-lc-rs, with a key made for
/// `AES_256_GCM`: the plaintext becomes its ciphertext, the tag goes to `tag`,
/// and the two open to the plaintext again. No other tag opens that ciphertext:
/// opening computes the tag from the ciphertext and compares. The call fails on
/// nothing but a key, nonce, plaintext, or associated data of a length that
/// AES-256-GCM does not take.
#[verifier::external_body]
pub(crate) fn seal(
    key: &[u8; 32],
    nonce: &[u8; 12],
    aad: &[u8],
    in_out: &mut [u8],
    tag: &mut [u8; 16],
) -> (result: Result<(), Unspecified>)
    requires
        old(in_out)@.len() <= GCM_MAX_PLAINTEXT,
        aad@.len() <= GCM_MAX_AAD,
    ensures
        result is Ok,
        final(in_out)@.len() == old(in_out)@.len(),
        final(in_out)@ + final(tag)@ == crate::primitives::aes_256_gcm(
            key@,
            nonce@,
            aad@,
            old(in_out)@,
        ),
        crate::primitives::aes_256_gcm_open(key@, nonce@, aad@, final(in_out)@ + final(tag)@)
            == Some(old(in_out)@),
        crate::primitives::only_tag(key@, nonce@, aad@, final(in_out)@, final(tag)@),
{
    let key = LessSafeKey::new(UnboundKey::new(&AES_256_GCM, key)?);
    let nonce = Nonce::assume_unique_for_key(*nonce);
    let sealed = key.seal_in_place_separate_tag(nonce, Aad::from(aad), in_out)?;
    tag.copy_from_slice(sealed.as_ref());
    Ok(())
}

/// `LessSafeKey::seal_out_of_place_scatter` of aws-lc-rs, with a key made for
/// `AES_256_GCM` and no extra plaintext: the ciphertext of `plaintext` goes to
/// `output`, the tag to `tag`, and the two open to the plaintext again. No other
/// tag opens that ciphertext. The call fails on nothing but lengths that do not
/// match or that AES-256-GCM does not take.
#[verifier::external_body]
pub(crate) fn seal_scatter(
    key: &[u8; 32],
    nonce: &[u8; 12],
    aad: &[u8],
    plaintext: &[u8],
    output: &mut [u8],
    tag: &mut [u8],
) -> (result: Result<(), Unspecified>)
    requires
        plaintext@.len() <= GCM_MAX_PLAINTEXT,
        aad@.len() <= GCM_MAX_AAD,
        old(output)@.len() == plaintext@.len(),
        old(tag)@.len() == 16,
    ensures
        result is Ok,
        final(output)@.len() == old(output)@.len(),
        final(tag)@.len() == 16,
        final(output)@ + final(tag)@ == crate::primitives::aes_256_gcm(
            key@,
            nonce@,
            aad@,
            plaintext@,
        ),
        crate::primitives::aes_256_gcm_open(key@, nonce@, aad@, final(output)@ + final(tag)@)
            == Some(plaintext@),
        crate::primitives::only_tag(key@, nonce@, aad@, final(output)@, final(tag)@),
{
    let key = LessSafeKey::new(UnboundKey::new(&AES_256_GCM, key)?);
    let nonce = Nonce::assume_unique_for_key(*nonce);
    key.seal_out_of_place_scatter(nonce, Aad::from(aad), plaintext, output, &[], tag)
}

/// `LessSafeKey::open_separate_gather` of aws-lc-rs, with a key made for
/// `AES_256_GCM`: `output` takes the plaintext that ciphertext and tag were
/// made of, and the call fails where there is none. What `output` then holds
/// is not said.
#[verifier::external_body]
pub(crate) fn open(
    key: &[u8; 32],
    nonce: &[u8; 12],
    aad: &[u8],
    ciphertext: &[u8],
    tag: &[u8; 16],
    output: &mut [u8],
) -> (result: Result<(), Unspecified>)
    requires
        ciphertext@.len() <= GCM_MAX_PLAINTEXT,
        aad@.len() <= GCM_MAX_AAD,
        old(output)@.len() == ciphertext@.len(),
    ensures
        final(output)@.len() == old(output)@.len(),
        match crate::primitives::aes_256_gcm_open(key@, nonce@, aad@, ciphertext@ + tag@) {
            Some(plaintext) => result is Ok && final(output)@ == plaintext,
            None => result is Err,
        },
{
    let key = LessSafeKey::new(UnboundKey::new(&AES_256_GCM, key)?);
    let nonce = Nonce::assume_unique_for_key(*nonce);
    key.open_separate_gather(nonce, Aad::from(aad), ciphertext, tag, output)
}

/// `LessSafeKey::open_in_place_separate_tag` of aws-lc-rs, with a key made for
/// `AES_256_GCM`: the ciphertext becomes the plaintext that it and the tag were
/// made of, and the call fails where there is none. What `in_out` then holds
/// is not said.
#[verifier::external_body]
pub(crate) fn open_in_place(
    key: &[u8; 32],
    nonce: &[u8; 12],
    aad: &[u8],
    tag: &[u8; 16],
    in_out: &mut [u8],
) -> (result: Result<(), Unspecified>)
    requires
        old(in_out)@.len() <= GCM_MAX_PLAINTEXT,
        aad@.len() <= GCM_MAX_AAD,
    ensures
        final(in_out)@.len() == old(in_out)@.len(),
        match crate::primitives::aes_256_gcm_open(key@, nonce@, aad@, old(in_out)@ + tag@) {
            Some(plaintext) => result is Ok && final(in_out)@ == plaintext,
            None => result is Err,
        },
{
    let key = LessSafeKey::new(UnboundKey::new(&AES_256_GCM, key)?);
    let nonce = Nonce::assume_unique_for_key(*nonce);
    key.open_in_place_separate_tag(nonce, Aad::from(aad), tag, in_out)?;
    Ok(())
}

/// `Prk::expand` and `Okm::fill` of aws-lc-rs with HKDF-SHA-384, for one block
/// of output: the HMAC of the info and the byte 1 under the pseudorandom key.
/// `Prk::new_less_safe` panics on a key of more than 64 bytes; nothing else can
/// fail at this output length.
#[verifier::external_body]
pub(crate) fn hkdf_block(key: &[u8], info: &[u8]) -> (result: Result<[u8; 48], Unspecified>)
    requires
        key@.len() <= 64,
    ensures
        result is Ok,
        result->Ok_0@ == crate::primitives::hmac_sha384(key@, info@.push(1)),
{
    let mut block = [0u8; 48];
    let prk = Prk::new_less_safe(HKDF_SHA384, key);
    prk.expand(&[info], HKDF_SHA384)?.fill(&mut block)?;
    Ok(block)
}

/// `SystemRandom::fill` of aws-lc-rs: `output` takes random bytes, or the call
/// fails.
#[verifier::external_body]
pub(crate) fn random(output: &mut [u8]) -> (result: Result<(), Unspecified>)
    ensures
        final(output)@.len() == old(output)@.len(),
{
    SystemRandom::new().fill(output)
}

} // verus!
