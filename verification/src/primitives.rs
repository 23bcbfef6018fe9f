use vstd::prelude::*;

verus! {

/// The longest plaintext that AES-GCM takes.
pub const GCM_MAX_PLAINTEXT: u64 = 0xf_ffff_ffe0;

/// The length of the tag that AES-GCM appends.
pub const GCM_TAG_LENGTH: usize = 16;

/// The longest associated data that AES-GCM takes.
pub const GCM_MAX_AAD: u64 = 0x1fff_ffff_ffff_ffff;

/// What AES-256-GCM with a 96-bit nonce and a 128-bit tag makes of a
/// plaintext: the ciphertext, followed by the tag. Every provider computes
/// this one function.
pub uninterp spec fn aes_256_gcm(
    key: Seq<u8>,
    nonce: Seq<u8>,
    aad: Seq<u8>,
    plaintext: Seq<u8>,
) -> Seq<u8>;

/// What HMAC-SHA-384 makes of a message. Every provider computes this one
/// function.
pub uninterp spec fn hmac_sha384(key: Seq<u8>, message: Seq<u8>) -> Seq<u8>;

/// Whether `sealed` is `plaintext` sealed by AES-256-GCM.
pub open spec fn aes_256_gcm_seals(
    key: Seq<u8>,
    nonce: Seq<u8>,
    aad: Seq<u8>,
    plaintext: Seq<u8>,
    sealed: Seq<u8>,
) -> bool {
    &&& sealed.len() == plaintext.len() + GCM_TAG_LENGTH
    &&& sealed == aes_256_gcm(key, nonce, aad, plaintext)
}

/// The plaintext that AES-256-GCM made `sealed` of, if there is one.
#[verifier::opaque]
pub open spec fn aes_256_gcm_open(
    key: Seq<u8>,
    nonce: Seq<u8>,
    aad: Seq<u8>,
    sealed: Seq<u8>,
) -> Option<Seq<u8>> {
    if exists|plaintext: Seq<u8>| aes_256_gcm_seals(key, nonce, aad, plaintext, sealed) {
        Some(choose|plaintext: Seq<u8>| aes_256_gcm_seals(key, nonce, aad, plaintext, sealed))
    } else {
        None
    }
}

/// `tag` is the only one that opens `ciphertext`: the tag is computed from the
/// ciphertext, and opening compares the two.
pub open spec fn only_tag(
    key: Seq<u8>,
    nonce: Seq<u8>,
    aad: Seq<u8>,
    ciphertext: Seq<u8>,
    tag: Seq<u8>,
) -> bool {
    forall|other: Seq<u8>|
        other.len() == GCM_TAG_LENGTH && other != tag ==> #[trigger] aes_256_gcm_open(
            key,
            nonce,
            aad,
            ciphertext + other,
        ) is None
}

/// Opening takes the tag off and keeps the rest of the length.
pub proof fn lemma_opened_length(
    key: Seq<u8>,
    nonce: Seq<u8>,
    aad: Seq<u8>,
    sealed: Seq<u8>,
)
    ensures
        aes_256_gcm_open(key, nonce, aad, sealed) matches Some(plaintext) ==> plaintext.len()
            + GCM_TAG_LENGTH == sealed.len(),
{
    reveal(aes_256_gcm_open);
}

/// The first `length` bytes, at most one block, of HKDF-Expand with
/// HMAC-SHA-384.
pub open spec fn hkdf_expand(key: Seq<u8>, info: Seq<u8>, length: int) -> Seq<u8> {
    hmac_sha384(key, info.push(1)).take(length)
}

} // verus!
