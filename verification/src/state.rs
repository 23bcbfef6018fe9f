use std::sync::Arc;

use crate::backends::{AeadKey, ProviderRng};
use crate::buffer::SegmentBuffer;
use crate::bytes::{
    array_at, be32, bytes_equal, concat, decode_be32, encode_be32, encode_be64, range_mut,
};
use crate::error::{Error, LengthRequirement};
use crate::header::Header;
use crate::key::Key;
use crate::layout::{prefix_value, SegmentFraming, SegmentLayout};
use crate::model::{
    framing_error, header, header_error, header_iv, header_tag, output_error, plaintext_error,
    segment_aad, segment_nonce, session, Session, HEADER_TAG_PURPOSE, MESSAGE_KEY_PURPOSE,
    SEGMENT_KEY_PURPOSE,
};
use crate::parameters::{
    Parameters, SegmentKind, AEAD_IV_LENGTH, AEAD_MAX_SEGMENTS, AEAD_TAG_LENGTH,
    ENCODED_PARAMETERS_LENGTH, FLOE_IV_LENGTH, HEADER_TAG_LENGTH, SEGMENT_OVERHEAD,
    SEGMENT_PAYLOAD_OFFSET, SEGMENT_PREFIX_LENGTH,
};
use crate::provider::Provider;
use crate::secret::{constant_time_equal, zeroize, SecretBytes};
use vstd::prelude::*;

verus! {

/// How many bytes of nonces are drawn from the random generator at once.
pub const NONCE_BATCH_LENGTH: usize = 3072;

const SEGMENT_AAD_LENGTH: usize = 9;

fn make_segment_aad(position: u64, kind: SegmentKind) -> (aad: [u8; SEGMENT_AAD_LENGTH])
    ensures
        aad@ == segment_aad(position, kind),
{
    let encoded = encode_be64(position);
    let aad = [
        encoded[0],
        encoded[1],
        encoded[2],
        encoded[3],
        encoded[4],
        encoded[5],
        encoded[6],
        encoded[7],
        kind.indicator(),
    ];
    assert(aad@ =~= segment_aad(position, kind));
    aad
}

/// What every state of one message shares.
pub(crate) struct MessageContext {
    provider: Provider,
    parameters: Parameters,
    message_key: SecretBytes<48>,
    floe_iv: [u8; FLOE_IV_LENGTH],
    aad: Vec<u8>,
}

impl MessageContext {
    spec fn session(self) -> Session {
        Session {
            parameters: self.parameters,
            message_key: self.message_key@,
            iv: self.floe_iv@,
            aad: self.aad@,
        }
    }

    fn new(
        provider: Provider,
        parameters: Parameters,
        message_key: SecretBytes<48>,
        floe_iv: [u8; FLOE_IV_LENGTH],
        aad: &[u8],
    ) -> (context: Self)
        ensures
            context.provider == provider,
            context.session() == (Session {
                parameters,
                message_key: message_key@,
                iv: floe_iv@,
                aad: aad@,
            }),
    {
        let mut copy: Vec<u8> = Vec::new();
        copy.extend_from_slice(aad);
        assert(copy@ =~= aad@);
        MessageContext { provider, parameters, message_key, floe_iv, aad: copy }
    }
}

/// `Arc::clone` of the standard library: another pointer to the same value.
#[verifier::external_body]
fn share(context: &Arc<MessageContext>) -> (shared: Arc<MessageContext>)
    ensures
        shared == *context,
{
    Arc::clone(context)
}

struct CachedKey {
    masked_position: u64,
    key: AeadKey,
}

impl CachedKey {
    fn derive(context: &MessageContext, masked_position: u64) -> (result: Result<Self, Error>)
        ensures
            result is Ok,
            result->Ok_0.masked_position == masked_position,
            result->Ok_0.key@ == context.session().key_at(masked_position),
    {
        let key = derive_segment_key(context, masked_position)?;
        Ok(CachedKey { masked_position, key })
    }
}

struct KeyCache {
    cached_key: Option<CachedKey>,
}

impl KeyCache {
    /// The cached key, if any, is the one of its position.
    spec fn wf(self, session: Session) -> bool {
        self.cached_key matches Some(cached) ==> cached.key@ == session.key_at(
            cached.masked_position,
        )
    }

    /// A cache that already holds the key of the first segments.
    fn new(context: &MessageContext) -> (result: Result<Self, Error>)
        ensures
            result is Ok,
            result->Ok_0.wf(context.session()),
            result->Ok_0.cached_key matches Some(cached) && cached.masked_position == 0
                && cached.key@ == context.session().key_at(0),
    {
        Ok(KeyCache { cached_key: Some(CachedKey::derive(context, 0)?) })
    }

    fn empty() -> (cache: Self)
        ensures
            forall|session: Session| cache.wf(session),
    {
        KeyCache { cached_key: None }
    }

    fn key_for_position(&mut self, context: &MessageContext, position: u64) -> (result: Result<
        &AeadKey,
        Error,
    >)
        requires
            old(self).wf(context.session()),
        ensures
            final(self).wf(context.session()),
            match result {
                Ok(key) => position < AEAD_MAX_SEGMENTS && key@ == context.session().segment_key(
                    position,
                ),
                Err(error) => position >= AEAD_MAX_SEGMENTS && error == Error::SegmentLimit,
            },
    {
        if position >= AEAD_MAX_SEGMENTS {
            return Err(Error::SegmentLimit);
        }
        let masked_position = context.parameters.masked_position(position);
        let cached = match &self.cached_key {
            Some(cached) => cached.masked_position == masked_position,
            None => false,
        };
        if !cached {
            self.cached_key = Some(CachedKey::derive(context, masked_position)?);
        }
        match &self.cached_key {
            Some(cached) => Ok(&cached.key),
            None => Err(Error::CryptoFailure),
        }
    }
}

/// Where a state takes its nonces from.
#[verifier::ext_equal]
pub struct NonceSupply {
    /// The provider that draws nonces.
    pub provider: Provider,
    /// The nonces that were drawn last, all of them.
    pub batch: Seq<u8>,
    /// How many bytes of the batch are used.
    pub used: int,
    /// Whether the provider has a generator of its own that is seeded, so that
    /// drawing more nonces does not fail.
    pub seeded: bool,
}

impl NonceSupply {
    /// The nonces of the batch that are not used yet.
    pub open spec fn left(self) -> Seq<u8> {
        self.batch.skip(self.used)
    }

    /// Whether the batch is used up, or none was drawn yet.
    pub open spec fn is_spent(self) -> bool {
        self.used == self.batch.len()
    }

    /// Whether the next nonce is there for sure: it is drawn already, or drawing
    /// it does not fail.
    pub open spec fn is_sure(self) -> bool {
        !self.is_spent() || self.seeded
    }

    /// A whole number of nonces is used and left, and a generator that has drawn
    /// some is seeded.
    pub open spec fn wf(self) -> bool {
        &&& self.batch.len() == NONCE_BATCH_LENGTH
        &&& 0 <= self.used <= NONCE_BATCH_LENGTH
        &&& self.used % AEAD_IV_LENGTH as int == 0
        &&& self.provider is RustCrypto && !self.is_spent() ==> self.seeded
    }

    /// Both give the same nonces: a batch that is used up does not matter.
    pub open spec fn agrees(self, other: NonceSupply) -> bool {
        &&& self.provider == other.provider
        &&& self.seeded == other.seeded
        &&& self.left() == other.left()
        &&& self.is_spent() == other.is_spent()
    }

    /// The nonce that was taken last.
    pub open spec fn last(self) -> Seq<u8> {
        self.batch.subrange(self.used - AEAD_IV_LENGTH, self.used)
    }

    /// This is what is left of `before` once a nonce is taken: the next one of
    /// the batch, or, where that is used up, the first one of a fresh batch.
    pub open spec fn follows(self, before: NonceSupply) -> bool {
        &&& self.provider == before.provider
        &&& before.seeded || self.provider is RustCrypto ==> self.seeded
        &&& if before.is_spent() {
            &&& self.batch.len() == NONCE_BATCH_LENGTH
            &&& self.used == AEAD_IV_LENGTH
        } else {
            &&& self.batch == before.batch
            &&& self.used == before.used + AEAD_IV_LENGTH
        }
    }

    /// No nonce of a batch is used twice: where a nonce is taken for each of
    /// `supplies` but the first, and none of those from `first` on and before
    /// `second` is used up, then the nonces taken for `first` and for `second`
    /// are of one batch, and stand in it as far apart as the two.
    pub proof fn lemma_nonces_are_used_once(
        supplies: Seq<NonceSupply>,
        first: int,
        second: int,
    )
        requires
            forall|k: int|
                0 < k < supplies.len() ==> (#[trigger] supplies[k]).follows(supplies[k - 1]),
            0 < first < second < supplies.len(),
            forall|k: int| first <= k < second ==> !(#[trigger] supplies[k]).is_spent(),
        ensures
            supplies[second].batch == supplies[first].batch,
            supplies[second].used == supplies[first].used + (second - first) * AEAD_IV_LENGTH,
            supplies[first].last() == supplies[first].batch.subrange(
                supplies[first].used - AEAD_IV_LENGTH,
                supplies[first].used,
            ),
            supplies[second].last() == supplies[first].batch.subrange(
                supplies[first].used + (second - first - 1) * AEAD_IV_LENGTH,
                supplies[first].used + (second - first) * AEAD_IV_LENGTH,
            ),
            supplies[first - 1].is_spent() ==> supplies[first].last()
                == supplies[first].batch.take(AEAD_IV_LENGTH as int),
        decreases second - first,
    {
        assert(supplies[second].follows(supplies[second - 1]));
        assert(supplies[first].follows(supplies[first - 1]));
        assert(!supplies[second - 1].is_spent());
        if first + 1 < second {
            Self::lemma_nonces_are_used_once(supplies, first, second - 1);
        }
    }
}

/// What encrypting a segment does to the supply of nonces. An early error takes
/// none. Else a segment takes the next one; so does the error of the segment
/// limit, which is met only then. It fails for want of random bytes only where
/// no nonce is left and drawing more can fail, and then takes none.
pub open spec fn nonces_used(
    before: NonceSupply,
    after: NonceSupply,
    early: Option<Error>,
    result: Result<Seq<u8>, Error>,
) -> bool {
    match early {
        Some(_) => after == before,
        None => match result {
            Ok(segment) => after.follows(before) && segment_nonce(segment) == after.last(),
            Err(error) => if error == Error::RngFailure {
                !before.is_sure() && after.agrees(before)
            } else {
                after.follows(before)
            },
        },
    }
}

/// Hands out nonces that it draws from a random generator in batches.
struct NonceGenerator {
    rng: ProviderRng,
    bytes: [u8; NONCE_BATCH_LENGTH],
    next: usize,
}

impl NonceGenerator {
    /// A whole number of nonces is left, and a generator that has drawn some is
    /// seeded.
    spec fn wf(self) -> bool {
        &&& self.next <= NONCE_BATCH_LENGTH
        &&& self.next % AEAD_IV_LENGTH == 0
        &&& self.rng.provider() is RustCrypto && self.next < NONCE_BATCH_LENGTH
            ==> self.rng.is_seeded()
    }

    /// Where the next nonces come from.
    spec fn supply(self) -> NonceSupply {
        NonceSupply {
            provider: self.rng.provider(),
            batch: self.bytes@,
            used: self.next as int,
            seeded: self.rng.is_seeded(),
        }
    }

    fn new(rng: ProviderRng) -> (nonces: Self)
        ensures
            nonces.wf(),
            nonces.rng == rng,
            nonces.supply().is_spent(),
    {
        NonceGenerator { rng, bytes: [0u8; NONCE_BATCH_LENGTH], next: NONCE_BATCH_LENGTH }
    }

    /// Takes the next nonce of the batch, or the first of a fresh batch where
    /// none is left.
    fn next(&mut self) -> (result: Result<[u8; AEAD_IV_LENGTH], Error>)
        requires
            old(self).wf(),
        ensures
            final(self).wf(),
            final(self).rng.provider() == old(self).rng.provider(),
            match result {
                Ok(nonce) => {
                    &&& final(self).supply().follows(old(self).supply())
                    &&& nonce@ == final(self).supply().last()
                },
                Err(error) => {
                    &&& error == Error::RngFailure
                    &&& !old(self).supply().is_sure()
                    &&& final(self).supply().agrees(old(self).supply())
                },
            },
    {
        if self.next == NONCE_BATCH_LENGTH {
            if let Err(error) = self.rng.fill(&mut self.bytes) {
                assert(self.supply().left() =~= old(self).supply().left());
                return Err(error);
            }
            self.next = 0;
        }
        let nonce = array_at::<AEAD_IV_LENGTH>(&self.bytes, self.next);
        self.next += AEAD_IV_LENGTH;
        assert(nonce@ =~= self.supply().last());
        Ok(nonce)
    }
}

fn ciphertext_segment_size(parameters: Parameters, plaintext_length: usize, kind: SegmentKind) -> (
result: Result<usize, Error>)
    ensures
        parameters.wf(),
        match result {
            Ok(size) => plaintext_error(parameters, kind, plaintext_length as int) is None && size
                == SEGMENT_OVERHEAD + plaintext_length,
            Err(error) => plaintext_error(parameters, kind, plaintext_length as int) == Some(error),
        },
{
    let maximum = parameters.plaintext_segment_length();
    match kind {
        SegmentKind::Final => if plaintext_length <= maximum {
            Ok(SEGMENT_OVERHEAD + plaintext_length)
        } else {
            Err(
                Error::InvalidPlaintextLength {
                    actual: plaintext_length,
                    required: LengthRequirement::AtMost(maximum),
                },
            )
        },
        SegmentKind::NonFinal => if plaintext_length == maximum {
            Ok(parameters.ciphertext_segment_length())
        } else {
            Err(
                Error::InvalidPlaintextLength {
                    actual: plaintext_length,
                    required: LengthRequirement::Exactly(maximum),
                },
            )
        },
    }
}

/// The error, if any, of encrypting a segment to an output of `space` bytes,
/// before a nonce is drawn.
pub open spec fn encryption_error(
    parameters: Parameters,
    kind: SegmentKind,
    plaintext_length: int,
    space: int,
) -> Option<Error> {
    match plaintext_error(parameters, kind, plaintext_length) {
        Some(error) => Some(error),
        None => output_error(space, SEGMENT_OVERHEAD + plaintext_length),
    }
}

/// Checks the lengths of a segment, and returns the length it takes.
fn check_segment_lengths(
    parameters: Parameters,
    plaintext_length: usize,
    kind: SegmentKind,
    space: usize,
) -> (result: Result<usize, Error>)
    ensures
        parameters.wf(),
        match result {
            Ok(required) => encryption_error(
                parameters,
                kind,
                plaintext_length as int,
                space as int,
            ) is None && required == SEGMENT_OVERHEAD + plaintext_length,
            Err(error) => encryption_error(parameters, kind, plaintext_length as int, space as int)
                == Some(error),
        },
{
    let required = ciphertext_segment_size(parameters, plaintext_length, kind)?;
    if space < required {
        return Err(Error::OutputTooSmall { actual: space, required });
    }
    Ok(required)
}

/// Writes the length prefix into the segment's framing bytes.
fn write_segment_prefix(output: &mut [u8], kind: SegmentKind, required: usize)
    requires
        old(output)@.len() >= SEGMENT_PREFIX_LENGTH,
        kind is Final ==> required <= u32::MAX,
    ensures
        final(output)@ == be32(prefix_value(kind, required as int)) + old(output)@.skip(
            SEGMENT_PREFIX_LENGTH as int,
        ),
{
    let prefix: u32 = match kind {
        SegmentKind::NonFinal => u32::MAX,
        SegmentKind::Final => required as u32,
    };
    range_mut(output, 0, SEGMENT_PREFIX_LENGTH).copy_from_slice(&encode_be32(prefix));
    assert(output@ =~= be32(prefix_value(kind, required as int)) + old(output)@.skip(
        SEGMENT_PREFIX_LENGTH as int,
    ));
}

/// Writes the nonce into the segment's framing bytes.
fn write_segment_nonce(output: &mut [u8], nonce: &[u8; AEAD_IV_LENGTH])
    requires
        old(output)@.len() >= SEGMENT_PAYLOAD_OFFSET,
    ensures
        final(output)@ == old(output)@.take(SEGMENT_PREFIX_LENGTH as int) + nonce@
            + old(output)@.skip(SEGMENT_PAYLOAD_OFFSET as int),
{
    range_mut(output, SEGMENT_PREFIX_LENGTH, SEGMENT_PAYLOAD_OFFSET).copy_from_slice(nonce);
    assert(output@ =~= old(output)@.take(SEGMENT_PREFIX_LENGTH as int) + nonce@
        + old(output)@.skip(SEGMENT_PAYLOAD_OFFSET as int));
}

/// What an error that is not early leaves of an output: the prefix is written
/// before a nonce is drawn, and the nonce before the segment limit is met.
pub open spec fn left_by(
    error: Error,
    kind: SegmentKind,
    required: int,
    nonce: Seq<u8>,
    before: Seq<u8>,
) -> Seq<u8> {
    let prefix = be32(prefix_value(kind, required));
    if error == Error::RngFailure {
        prefix + before.skip(SEGMENT_PREFIX_LENGTH as int)
    } else {
        prefix + nonce + before.skip(SEGMENT_PAYLOAD_OFFSET as int)
    }
}

/// Writes the length prefix and a fresh nonce into the segment's framing bytes
/// and returns the nonce. The payload region is not touched.
fn write_segment_framing(
    nonces: &mut NonceGenerator,
    output: &mut [u8],
    kind: SegmentKind,
    required: usize,
) -> (result: Result<[u8; AEAD_IV_LENGTH], Error>)
    requires
        old(nonces).wf(),
        old(output)@.len() >= SEGMENT_PAYLOAD_OFFSET,
        kind is Final ==> required <= u32::MAX,
    ensures
        final(nonces).wf(),
        final(nonces).rng.provider() == old(nonces).rng.provider(),
        match result {
            Ok(nonce) => {
                &&& final(nonces).supply().follows(old(nonces).supply())
                &&& nonce@ == final(nonces).supply().last()
                &&& final(output)@ == be32(prefix_value(kind, required as int)) + nonce@
                    + old(output)@.skip(SEGMENT_PAYLOAD_OFFSET as int)
            },
            Err(error) => {
                &&& error == Error::RngFailure
                &&& !old(nonces).supply().is_sure()
                &&& final(nonces).supply().agrees(old(nonces).supply())
                &&& final(output)@ == be32(prefix_value(kind, required as int))
                    + old(output)@.skip(SEGMENT_PREFIX_LENGTH as int)
            },
        },
{
    write_segment_prefix(output, kind, required);
    let nonce = nonces.next()?;
    write_segment_nonce(output, &nonce);
    assert(output@ =~= be32(prefix_value(kind, required as int)) + nonce@ + old(output)@.skip(
        SEGMENT_PAYLOAD_OFFSET as int,
    ));
    Ok(nonce)
}

/// Encrypts `plaintext` with `nonce` as the segment at `position`, whose framing
/// bytes `output` starts with, and writes it to the start of `output`.
fn seal_segment_into(
    context: &MessageContext,
    keys: &mut KeyCache,
    nonce: &[u8; AEAD_IV_LENGTH],
    plaintext: &[u8],
    position: u64,
    kind: SegmentKind,
    output: &mut [u8],
) -> (result: Result<usize, Error>)
    requires
        old(keys).wf(context.session()),
        context.parameters.wf(),
        encryption_error(
            context.parameters,
            kind,
            plaintext@.len() as int,
            old(output)@.len() as int,
        ) is None,
        old(output)@.take(SEGMENT_PAYLOAD_OFFSET as int) == be32(
            prefix_value(kind, SEGMENT_OVERHEAD + plaintext@.len()),
        ) + nonce@,
    ensures
        final(keys).wf(context.session()),
        final(output)@.len() == old(output)@.len(),
        match result {
            Ok(written) => {
                &&& position < AEAD_MAX_SEGMENTS
                &&& written == SEGMENT_OVERHEAD + plaintext@.len()
                &&& final(output)@ == context.session().segment(
                    position,
                    kind,
                    nonce@,
                    plaintext@,
                ) + old(output)@.skip(written as int)
                &&& context.session().encrypts(
                    position,
                    kind,
                    plaintext@,
                    final(output)@.take(written as int),
                )
            },
            Err(error) => {
                &&& position >= AEAD_MAX_SEGMENTS
                &&& error == Error::SegmentLimit
                &&& final(output)@ == old(output)@
            },
        },
{
    let required: usize = SEGMENT_OVERHEAD + plaintext.len();
    let key = keys.key_for_position(context, position)?;
    let aad = make_segment_aad(position, kind);
    let payload = range_mut(output, SEGMENT_PAYLOAD_OFFSET, required);
    key.seal_into(nonce, &aad, plaintext, payload)?;
    proof {
        reveal(Session::encrypts);
        let segment = context.session().segment(position, kind, nonce@, plaintext@);
        assert(output@.take(SEGMENT_PAYLOAD_OFFSET as int) =~= old(output)@.take(
            SEGMENT_PAYLOAD_OFFSET as int,
        ));
        assert(output@ =~= output@.take(SEGMENT_PAYLOAD_OFFSET as int) + output@.skip(
            SEGMENT_PAYLOAD_OFFSET as int,
        ));
        assert(output@ =~= segment + old(output)@.skip(required as int));
        assert(output@.take(required as int) =~= segment);
        assert(segment_nonce(segment) =~= nonce@);
        assert(segment.skip(SEGMENT_PAYLOAD_OFFSET as int) =~= crate::primitives::aes_256_gcm(
            context.session().segment_key(position),
            nonce@,
            segment_aad(position, kind),
            plaintext@,
        ));
        let sealed = segment.skip(SEGMENT_PAYLOAD_OFFSET as int);
        let tag_start = SEGMENT_PAYLOAD_OFFSET + plaintext@.len();
        assert(sealed.take(plaintext@.len() as int) =~= segment.subrange(
            SEGMENT_PAYLOAD_OFFSET as int,
            tag_start,
        ));
        assert(sealed.skip(plaintext@.len() as int) =~= segment.skip(tag_start));
    }
    Ok(required)
}

/// Encrypts the plaintext in `buffer` with `nonce` as the segment at
/// `position`, whose framing bytes `buffer` starts with, in place.
#[verifier::rlimit(30)]
fn seal_segment_in_place(
    context: &MessageContext,
    keys: &mut KeyCache,
    nonce: &[u8; AEAD_IV_LENGTH],
    buffer: &mut [u8],
    plaintext_length: usize,
    position: u64,
    kind: SegmentKind,
) -> (result: Result<usize, Error>)
    requires
        old(keys).wf(context.session()),
        context.parameters.wf(),
        encryption_error(
            context.parameters,
            kind,
            plaintext_length as int,
            old(buffer)@.len() as int,
        ) is None,
        old(buffer)@.take(SEGMENT_PAYLOAD_OFFSET as int) == be32(
            prefix_value(kind, SEGMENT_OVERHEAD + plaintext_length),
        ) + nonce@,
    ensures
        final(keys).wf(context.session()),
        final(buffer)@.len() == old(buffer)@.len(),
        match result {
            Ok(written) => {
                let plaintext = old(buffer)@.subrange(
                    SEGMENT_PAYLOAD_OFFSET as int,
                    SEGMENT_PAYLOAD_OFFSET + plaintext_length,
                );
                &&& position < AEAD_MAX_SEGMENTS
                &&& written == SEGMENT_OVERHEAD + plaintext_length
                &&& final(buffer)@ == context.session().segment(position, kind, nonce@, plaintext)
                    + old(buffer)@.skip(written as int)
                &&& context.session().encrypts(
                    position,
                    kind,
                    plaintext,
                    final(buffer)@.take(written as int),
                )
            },
            Err(error) => {
                &&& position >= AEAD_MAX_SEGMENTS
                &&& error == Error::SegmentLimit
                &&& final(buffer)@ == old(buffer)@
            },
        },
{
    let required: usize = SEGMENT_OVERHEAD + plaintext_length;
    let ghost plaintext = buffer@.subrange(
        SEGMENT_PAYLOAD_OFFSET as int,
        SEGMENT_PAYLOAD_OFFSET + plaintext_length,
    );
    let key = keys.key_for_position(context, position)?;
    let aad = make_segment_aad(position, kind);
    let tag_start: usize = SEGMENT_PAYLOAD_OFFSET + plaintext_length;
    let mut tag = [0u8; AEAD_TAG_LENGTH];
    let payload = range_mut(buffer, SEGMENT_PAYLOAD_OFFSET, tag_start);
    assert(payload@ =~= plaintext);
    key.seal(nonce, &aad, payload, &mut tag)?;
    let ghost sealed = payload@;
    range_mut(buffer, tag_start, required).copy_from_slice(&tag);
    proof {
        reveal(Session::encrypts);
        let segment = context.session().segment(position, kind, nonce@, plaintext);
        assert(buffer@.take(SEGMENT_PAYLOAD_OFFSET as int) =~= old(buffer)@.take(
            SEGMENT_PAYLOAD_OFFSET as int,
        ));
        assert(buffer@ =~= buffer@.take(SEGMENT_PAYLOAD_OFFSET as int) + (sealed + tag@)
            + old(buffer)@.skip(required as int));
        assert(buffer@ =~= segment + old(buffer)@.skip(required as int));
        assert(buffer@.take(required as int) =~= segment);
        assert(segment_nonce(segment) =~= nonce@);
        assert(segment.skip(SEGMENT_PAYLOAD_OFFSET as int) =~= crate::primitives::aes_256_gcm(
            context.session().segment_key(position),
            nonce@,
            segment_aad(position, kind),
            plaintext,
        ));
        assert(segment.subrange(SEGMENT_PAYLOAD_OFFSET as int, tag_start as int)
            =~= sealed);
        assert(segment.skip(tag_start as int) =~= tag@);
    }
    Ok(required)
}

fn derive_header_tag(
    provider: Provider,
    key: &Key,
    parameters: Parameters,
    floe_iv: &[u8; FLOE_IV_LENGTH],
    aad: &[u8],
) -> (result: Result<[u8; HEADER_TAG_LENGTH], Error>)
    ensures
        result is Ok,
        result->Ok_0@ == header_tag(key@, parameters, floe_iv@, aad@),
{
    let encoded = parameters.encode();
    let info: [&[u8]; 4] = [&encoded, floe_iv, &HEADER_TAG_PURPOSE, aad];
    proof {
        lemma_four_parts(info@);
    }
    provider.kdf_expand::<HEADER_TAG_LENGTH>(key.as_bytes(), &info)
}

fn derive_message_key(
    provider: Provider,
    key: &Key,
    parameters: Parameters,
    floe_iv: &[u8; FLOE_IV_LENGTH],
    aad: &[u8],
) -> (result: Result<SecretBytes<48>, Error>)
    ensures
        result is Ok,
        result->Ok_0@ == session(key@, parameters, floe_iv@, aad@).message_key,
{
    let encoded = parameters.encode();
    let info: [&[u8]; 4] = [&encoded, floe_iv, &MESSAGE_KEY_PURPOSE, aad];
    proof {
        lemma_four_parts(info@);
    }
    let mut material = provider.kdf_expand::<48>(key.as_bytes(), &info)?;
    let secret = SecretBytes::new(material);
    zeroize(&mut material);
    Ok(secret)
}

fn derive_segment_key(context: &MessageContext, masked_position: u64) -> (result: Result<
    AeadKey,
    Error,
>)
    ensures
        result is Ok,
        result->Ok_0@ == context.session().key_at(masked_position),
{
    let encoded = context.parameters.encode();
    let position_bytes = encode_be64(masked_position);
    let info: [&[u8]; 5] = [
        &encoded,
        &context.floe_iv,
        &SEGMENT_KEY_PURPOSE,
        &position_bytes,
        context.aad.as_slice(),
    ];
    proof {
        let parts = info@;
        lemma_four_parts(parts.drop_last());
    }
    let mut material = context.provider.kdf_expand::<32>(
        context.message_key.expose_bytes(),
        &info,
    )?;
    let key = AeadKey::new(context.provider, &material);
    zeroize(&mut material);
    Ok(key)
}

fn validate_segment(parameters: Parameters, ciphertext_segment: &[u8], kind: SegmentKind) -> (
result: Result<usize, Error>)
    ensures
        parameters.wf(),
        match result {
            Ok(length) => framing_error(parameters, kind, ciphertext_segment@) is None && length
                + SEGMENT_OVERHEAD == ciphertext_segment@.len() && length
                <= parameters.payload_length(),
            Err(error) => framing_error(parameters, kind, ciphertext_segment@) == Some(error),
        },
{
    let maximum = parameters.ciphertext_segment_length();
    match kind {
        SegmentKind::Final => {
            parameters.validate_ciphertext_segment_length(ciphertext_segment.len())?;
        },
        SegmentKind::NonFinal => {
            if ciphertext_segment.len() != maximum {
                return Err(
                    Error::InvalidCiphertextLength {
                        actual: ciphertext_segment.len(),
                        required: LengthRequirement::Exactly(maximum),
                    },
                );
            }
        },
    }
    let prefix = decode_be32(array_at::<SEGMENT_PREFIX_LENGTH>(ciphertext_segment, 0));
    match kind {
        SegmentKind::Final => {
            if prefix as u64 != ciphertext_segment.len() as u64 {
                return Err(
                    Error::InvalidCiphertextLength {
                        actual: ciphertext_segment.len(),
                        required: LengthRequirement::Exactly(prefix as usize),
                    },
                );
            }
        },
        SegmentKind::NonFinal => {
            if prefix != u32::MAX {
                return Err(Error::InvalidSegmentPrefix);
            }
        },
    }
    Ok(ciphertext_segment.len() - SEGMENT_OVERHEAD)
}

/// Decrypts a segment whose framing was accepted to the start of `output`.
fn decrypt_segment_into_inner(
    context: &MessageContext,
    keys: &mut KeyCache,
    ciphertext_segment: &[u8],
    position: u64,
    kind: SegmentKind,
    plaintext_length: usize,
    output: &mut [u8],
) -> (result: Result<usize, Error>)
    requires
        old(keys).wf(context.session()),
        ciphertext_segment@.len() == plaintext_length + SEGMENT_OVERHEAD,
        plaintext_length <= u32::MAX,
    ensures
        final(keys).wf(context.session()),
        final(output)@.len() == old(output)@.len(),
        opened_into(
            output_error(old(output)@.len() as int, plaintext_length as int),
            context.session().authenticated(position, kind, ciphertext_segment@),
            plaintext_length as int,
            old(output)@,
            final(output)@,
            result,
        ),
{
    if output.len() < plaintext_length {
        return Err(Error::OutputTooSmall { actual: output.len(), required: plaintext_length });
    }
    let key = keys.key_for_position(context, position)?;
    let tag_start: usize = ciphertext_segment.len() - AEAD_TAG_LENGTH;
    let aad = make_segment_aad(position, kind);
    let nonce = array_at::<AEAD_IV_LENGTH>(ciphertext_segment, SEGMENT_PREFIX_LENGTH);
    let tag = array_at::<AEAD_TAG_LENGTH>(ciphertext_segment, tag_start);
    let ciphertext = &ciphertext_segment[SEGMENT_PAYLOAD_OFFSET..tag_start];
    let target = range_mut(output, 0, plaintext_length);
    assert(ciphertext@ + tag@ =~= ciphertext_segment@.skip(SEGMENT_PAYLOAD_OFFSET as int));
    let opened = key.open(&nonce, &aad, ciphertext, &tag, target);
    assert(output@.skip(plaintext_length as int) =~= old(output)@.skip(plaintext_length as int));
    opened?;
    assert(output@ =~= output@.take(plaintext_length as int) + old(output)@.skip(
        plaintext_length as int,
    ));
    Ok(plaintext_length)
}

/// The outcome of writing a decrypted segment of `length` plaintext bytes to
/// the start of an output: an early error, or else what decryption gives. No
/// error but that of authentication changes the output, and that only where the
/// plaintext would stand.
pub open spec fn opened_into(
    early: Option<Error>,
    decrypted: Result<Seq<u8>, Error>,
    length: int,
    before: Seq<u8>,
    after: Seq<u8>,
    result: Result<usize, Error>,
) -> bool {
    match early {
        Some(error) => result == Err::<usize, Error>(error) && after == before,
        None => match decrypted {
            Ok(plaintext) => {
                &&& plaintext.len() == length
                &&& result == Ok::<usize, Error>(length as usize)
                &&& after == plaintext + before.skip(length)
            },
            Err(error) => {
                &&& result == Err::<usize, Error>(error)
                &&& error != Error::AuthenticationFailed ==> after == before
                &&& after.skip(length) == before.skip(length)
            },
        },
    }
}

/// Decrypts a segment whose framing was accepted in place, and returns its
/// plaintext.
fn open_segment_in_place<'a>(
    context: &MessageContext,
    keys: &mut KeyCache,
    ciphertext_segment: &'a mut [u8],
    position: u64,
    kind: SegmentKind,
    plaintext_length: usize,
) -> (result: Result<&'a mut [u8], Error>)
    requires
        old(keys).wf(context.session()),
        old(ciphertext_segment)@.len() == plaintext_length + SEGMENT_OVERHEAD,
        plaintext_length <= u32::MAX,
    ensures
        final(keys).wf(context.session()),
        match result {
            Ok(slice) => {
                &&& context.session().authenticated(position, kind, old(ciphertext_segment)@)
                    == Ok::<Seq<u8>, Error>(slice@)
                &&& slice@.len() == plaintext_length
                &&& final(ciphertext_segment)@ == old(ciphertext_segment)@.take(
                    SEGMENT_PAYLOAD_OFFSET as int,
                ) + final(slice)@ + old(ciphertext_segment)@.skip(
                    SEGMENT_PAYLOAD_OFFSET + plaintext_length,
                )
            },
            Err(error) => {
                &&& context.session().authenticated(position, kind, old(ciphertext_segment)@)
                    == Err::<Seq<u8>, Error>(error)
                &&& final(ciphertext_segment)@.len() == old(ciphertext_segment)@.len()
                &&& error != Error::AuthenticationFailed ==> final(ciphertext_segment)@
                    == old(ciphertext_segment)@
                &&& kept_around(
                    old(ciphertext_segment)@,
                    final(ciphertext_segment)@,
                    SEGMENT_PAYLOAD_OFFSET + plaintext_length,
                )
            },
        },
{
    let key = keys.key_for_position(context, position)?;
    let aad = make_segment_aad(position, kind);
    let nonce = array_at::<AEAD_IV_LENGTH>(ciphertext_segment, SEGMENT_PREFIX_LENGTH);
    let tag_start: usize = ciphertext_segment.len() - AEAD_TAG_LENGTH;
    let tag = array_at::<AEAD_TAG_LENGTH>(ciphertext_segment, tag_start);
    let ghost segment = ciphertext_segment@;
    let payload = range_mut(ciphertext_segment, SEGMENT_PAYLOAD_OFFSET, tag_start);
    assert(payload@ + tag@ =~= segment.skip(SEGMENT_PAYLOAD_OFFSET as int));
    proof {
        lemma_kept_around(segment, tag_start as int);
    }
    key.open_in_place(&nonce, &aad, &tag, payload)?;
    Ok(payload)
}

/// Replacing the payload changes nothing outside it.
proof fn lemma_kept_around(segment: Seq<u8>, end: int)
    requires
        SEGMENT_PAYLOAD_OFFSET <= end <= segment.len(),
    ensures
        forall|payload: Seq<u8>|
            payload.len() == end - SEGMENT_PAYLOAD_OFFSET ==> kept_around(
                segment,
                #[trigger] (segment.take(SEGMENT_PAYLOAD_OFFSET as int) + payload + segment.skip(end)),
                end,
            ),
{
    assert forall|payload: Seq<u8>| payload.len() == end - SEGMENT_PAYLOAD_OFFSET implies kept_around(
        segment,
        #[trigger] (segment.take(SEGMENT_PAYLOAD_OFFSET as int) + payload + segment.skip(end)),
        end,
    ) by {
        let after = segment.take(SEGMENT_PAYLOAD_OFFSET as int) + payload + segment.skip(end);
        assert(after.take(SEGMENT_PAYLOAD_OFFSET as int) =~= segment.take(
            SEGMENT_PAYLOAD_OFFSET as int,
        ));
        assert(after.skip(end) =~= segment.skip(end));
    }
}

/// What changes nothing outside the payload of a segment changes nothing outside
/// it in the bytes that start with the segment.
proof fn lemma_kept_around_in_prefix(bytes: Seq<u8>, length: int)
    requires
        SEGMENT_OVERHEAD <= length <= bytes.len(),
    ensures
        forall|segment: Seq<u8>|
            segment.len() == length && kept_around(
                bytes.subrange(0, length),
                segment,
                length - AEAD_TAG_LENGTH,
            ) ==> kept_around(
                bytes,
                #[trigger] (bytes.subrange(0, 0) + segment + bytes.subrange(
                    length,
                    bytes.len() as int,
                )),
                length - AEAD_TAG_LENGTH,
            ),
{
    assert forall|segment: Seq<u8>|
        segment.len() == length && kept_around(
            bytes.subrange(0, length),
            segment,
            length - AEAD_TAG_LENGTH,
        ) implies kept_around(
        bytes,
        #[trigger] (bytes.subrange(0, 0) + segment + bytes.subrange(length, bytes.len() as int)),
        length - AEAD_TAG_LENGTH,
    ) by {
        let end = length - AEAD_TAG_LENGTH;
        let head = bytes.subrange(0, length);
        let rest = bytes.subrange(length, bytes.len() as int);
        let after = bytes.subrange(0, 0) + segment + rest;
        assert(after.take(SEGMENT_PAYLOAD_OFFSET as int) =~= segment.take(
            SEGMENT_PAYLOAD_OFFSET as int,
        ));
        assert(bytes.take(SEGMENT_PAYLOAD_OFFSET as int) =~= head.take(
            SEGMENT_PAYLOAD_OFFSET as int,
        ));
        assert(after.skip(end) =~= segment.skip(end) + rest);
        assert(bytes.skip(end) =~= head.skip(end) + rest);
    }
}

/// Nothing has changed outside the payload, which ends at `end`.
pub open spec fn kept_around(before: Seq<u8>, after: Seq<u8>, end: int) -> bool {
    &&& after.take(SEGMENT_PAYLOAD_OFFSET as int) == before.take(SEGMENT_PAYLOAD_OFFSET as int)
    &&& after.skip(end) == before.skip(end)
}

proof fn lemma_four_parts(parts: Seq<&[u8]>)
    requires
        parts.len() == 4,
    ensures
        concat(parts) == parts[0]@ + parts[1]@ + parts[2]@ + parts[3]@,
{
    reveal_with_fuel(concat, 5);
    assert(concat(parts) =~= parts[0]@ + parts[1]@ + parts[2]@ + parts[3]@);
}

/// The outcome of encrypting a segment: an early error, or else either a
/// segment that encrypts the plaintext or a failure to draw a nonce. No
/// segment has a position beyond the limit.
pub open spec fn encrypted(
    session: Session,
    position: u64,
    kind: SegmentKind,
    plaintext: Seq<u8>,
    early: Option<Error>,
    result: Result<Seq<u8>, Error>,
) -> bool {
    match early {
        Some(error) => result == Err::<Seq<u8>, Error>(error),
        None => match result {
            Ok(segment) => position < AEAD_MAX_SEGMENTS && session.encrypts(
                position,
                kind,
                plaintext,
                segment,
            ),
            Err(error) => error == Error::RngFailure || (position >= AEAD_MAX_SEGMENTS && error
                == Error::SegmentLimit),
        },
    }
}

/// The outcome of encrypting a segment to the start of an output, with `nonce`
/// where one was taken. An early error leaves the output as it was, and another
/// one leaves framing bytes in it.
pub open spec fn encrypted_into(
    session: Session,
    position: u64,
    kind: SegmentKind,
    plaintext: Seq<u8>,
    early: Option<Error>,
    nonce: Seq<u8>,
    before: Seq<u8>,
    after: Seq<u8>,
    result: Result<usize, Error>,
) -> bool {
    let required = SEGMENT_OVERHEAD + plaintext.len();
    &&& after.len() == before.len()
    &&& match result {
        Ok(written) => written == required && after.skip(required) == before.skip(required),
        Err(error) => after == if early is Some {
            before
        } else {
            left_by(error, kind, required, nonce, before)
        },
    }
    &&& encrypted(
        session,
        position,
        kind,
        plaintext,
        early,
        match result {
            Ok(written) => Ok(after.take(written as int)),
            Err(error) => Err(error),
        },
    )
}

/// The error, if any, of a plaintext of `actual` bytes for `segment`.
pub open spec fn plaintext_mismatch(
    parameters: Parameters,
    actual: int,
    segment: SegmentLayout,
) -> Option<Error> {
    if segment.parameters() != parameters {
        Some(Error::InvalidParameters)
    } else if actual != segment.plaintext_length() {
        Some(
            Error::InvalidPlaintextLength {
                actual: actual as usize,
                required: LengthRequirement::Exactly(segment.plaintext_length()),
            },
        )
    } else {
        None
    }
}

/// The error, if any, of a ciphertext of `actual` bytes for `segment`.
pub open spec fn ciphertext_mismatch(
    parameters: Parameters,
    actual: int,
    segment: SegmentLayout,
) -> Option<Error> {
    if segment.parameters() != parameters {
        Some(Error::InvalidParameters)
    } else if actual != segment.ciphertext_length() {
        Some(
            Error::InvalidCiphertextLength {
                actual: actual as usize,
                required: LengthRequirement::Exactly(segment.ciphertext_length()),
            },
        )
    } else {
        None
    }
}

/// The outcome of encrypting `plaintext` as a segment of a layout.
pub open spec fn segment_encrypted(
    session: Session,
    plaintext: Seq<u8>,
    segment: SegmentLayout,
    result: Result<Seq<u8>, Error>,
) -> bool {
    encrypted(
        session,
        segment.position(),
        segment.kind(),
        plaintext,
        plaintext_mismatch(session.parameters, plaintext.len() as int, segment),
        result,
    )
}

/// The outcome of encrypting `plaintext` as a segment of a layout to the start
/// of an output.
pub open spec fn segment_encrypted_into(
    session: Session,
    plaintext: Seq<u8>,
    segment: SegmentLayout,
    nonce: Seq<u8>,
    before: Seq<u8>,
    after: Seq<u8>,
    result: Result<usize, Error>,
) -> bool {
    encrypted_into(
        session,
        segment.position(),
        segment.kind(),
        plaintext,
        first_error(
            plaintext_mismatch(session.parameters, plaintext.len() as int, segment),
            output_error(before.len() as int, segment.ciphertext_length() as int),
        ),
        nonce,
        before,
        after,
        result,
    )
}

/// The outcome of encrypting what a buffer holds as a segment of a layout.
pub open spec fn segment_encrypted_in_place(
    session: Session,
    segment: SegmentLayout,
    nonce: Seq<u8>,
    before: SegmentBuffer,
    after: SegmentBuffer,
    result: Result<&[u8], Error>,
) -> bool {
    match before.plaintext_view() {
        None => result == Err::<&[u8], Error>(Error::InvalidBufferState) && after == before,
        Some(plaintext) => encrypted_in_place(
            session,
            segment.position(),
            segment.kind(),
            first_error(
                plaintext_mismatch(session.parameters, plaintext.len() as int, segment),
                plaintext_buffer_error(session.parameters, before),
            ),
            nonce,
            before,
            after,
            result,
        ),
    }
}

/// The outcome of encrypting the payload that stands in caller-managed storage
/// as a segment of a layout.
pub open spec fn segment_encrypted_raw(
    session: Session,
    segment: SegmentLayout,
    nonce: Seq<u8>,
    before: Seq<u8>,
    after: Seq<u8>,
    result: Result<usize, Error>,
) -> bool {
    encrypted_into(
        session,
        segment.position(),
        segment.kind(),
        before.subrange(
            SEGMENT_PAYLOAD_OFFSET as int,
            SEGMENT_PAYLOAD_OFFSET + segment.plaintext_length(),
        ),
        first_error(
            if segment.parameters() != session.parameters {
                Some(Error::InvalidParameters)
            } else {
                None
            },
            output_error(before.len() as int, segment.ciphertext_length() as int),
        ),
        nonce,
        before,
        after,
        result,
    )
}

/// What decrypting a segment of a layout gives.
pub open spec fn segment_decrypted(
    session: Session,
    ciphertext: Seq<u8>,
    segment: SegmentLayout,
) -> Result<Seq<u8>, Error> {
    match ciphertext_mismatch(session.parameters, ciphertext.len() as int, segment) {
        Some(error) => Err(error),
        None => session.decrypted(segment.position(), segment.kind(), ciphertext),
    }
}

/// The outcome of decrypting a segment of a layout to the start of an output.
pub open spec fn segment_decrypted_into(
    session: Session,
    ciphertext: Seq<u8>,
    segment: SegmentLayout,
    before: Seq<u8>,
    after: Seq<u8>,
    result: Result<usize, Error>,
) -> bool {
    opened_into(
        first_error(
            ciphertext_mismatch(session.parameters, ciphertext.len() as int, segment),
            first_error(
                framing_error(session.parameters, segment.kind(), ciphertext),
                output_error(before.len() as int, segment.plaintext_length() as int),
            ),
        ),
        session.authenticated(segment.position(), segment.kind(), ciphertext),
        segment.plaintext_length() as int,
        before,
        after,
        result,
    )
}

/// The outcome of decrypting what a buffer holds as a segment of a layout.
pub open spec fn segment_decrypted_in_place(
    session: Session,
    segment: SegmentLayout,
    before: SegmentBuffer,
    after: SegmentBuffer,
    result: Result<Seq<u8>, Error>,
) -> bool {
    match before.ciphertext_view() {
        None => result == Err::<Seq<u8>, Error>(Error::InvalidBufferState) && after == before,
        Some(ciphertext) => decrypted_in_place(
            first_error(
                ciphertext_mismatch(session.parameters, ciphertext.len() as int, segment),
                ciphertext_buffer_error(session.parameters, before),
            ),
            session.decrypted(segment.position(), segment.kind(), ciphertext),
            before,
            after,
            result,
        ),
    }
}

/// What decrypting the segment of a layout that stands at the start of
/// caller-managed storage gives.
pub open spec fn segment_decrypted_raw(
    session: Session,
    storage: Seq<u8>,
    segment: SegmentLayout,
) -> Result<Seq<u8>, Error> {
    if segment.parameters() != session.parameters {
        Err(Error::InvalidParameters)
    } else if storage.len() < segment.ciphertext_length() {
        Err(
            Error::InvalidCiphertextLength {
                actual: storage.len() as usize,
                required: LengthRequirement::AtLeast(segment.ciphertext_length()),
            },
        )
    } else {
        session.decrypted(
            segment.position(),
            segment.kind(),
            storage.take(segment.ciphertext_length() as int),
        )
    }
}

/// The first of two errors.
pub open spec fn first_error(first: Option<Error>, second: Option<Error>) -> Option<Error> {
    match first {
        Some(error) => Some(error),
        None => second,
    }
}

/// The error, if any, of a buffer that should hold plaintext for `parameters`.
pub open spec fn plaintext_buffer_error(
    parameters: Parameters,
    buffer: SegmentBuffer,
) -> Option<Error> {
    if buffer.parameters() != parameters {
        Some(Error::InvalidParameters)
    } else if !(buffer.state() is Plaintext) {
        Some(Error::InvalidBufferState)
    } else {
        None
    }
}

/// The error, if any, of a buffer that should hold ciphertext for `parameters`.
pub open spec fn ciphertext_buffer_error(
    parameters: Parameters,
    buffer: SegmentBuffer,
) -> Option<Error> {
    if buffer.parameters() != parameters {
        Some(Error::InvalidParameters)
    } else if !(buffer.state() is Ciphertext) {
        Some(Error::InvalidBufferState)
    } else {
        None
    }
}

fn validate_layout(parameters: Parameters, segment: SegmentLayout) -> (result: Result<(), Error>)
    ensures
        match result {
            Ok(_) => segment.parameters() == parameters,
            Err(error) => segment.parameters() != parameters && error == Error::InvalidParameters,
        },
{
    if segment.parameters() == parameters {
        Ok(())
    } else {
        Err(Error::InvalidParameters)
    }
}

/// State for the specification's random-access encryption functions.
///
/// Use [`Parameters::plaintext_layout`] and pass each resulting
/// [`SegmentLayout`] directly to the corresponding segment operation.
///
/// The caller must encrypt each position at most once, produce exactly one
/// final segment, leave no gaps, and never encrypt a position beyond the final
/// segment.
pub struct EncryptionState {
    context: Arc<MessageContext>,
    keys: KeyCache,
    nonces: NonceGenerator,
}

impl EncryptionState {
    /// What this state encrypts segments with.
    pub closed spec fn session(&self) -> Session {
        self.context.session()
    }

    pub closed spec fn spec_provider(&self) -> Provider {
        self.context.provider
    }

    /// Where this state takes its nonces from.
    pub closed spec fn nonces(&self) -> NonceSupply {
        self.nonces.supply()
    }

    /// The cached key is one of the session, and the supply of nonces is that of
    /// the provider.
    pub closed spec fn wf(&self) -> bool {
        &&& self.keys.wf(self.context.session())
        &&& self.nonces.wf()
        &&& self.nonces.rng.provider() == self.context.provider
        &&& self.context.parameters.wf()
    }

    /// The supply of nonces of a state in use is that of its provider.
    pub proof fn lemma_nonces(&self)
        requires
            self.wf(),
        ensures
            self.nonces().wf(),
            self.nonces().provider == self.provider(),
    {
    }

    /// Returns the provider used by this state.
    #[verifier::when_used_as_spec(spec_provider)]
    pub fn provider(&self) -> (provider: Provider)
        ensures
            provider == self.provider(),
    {
        self.context.provider
    }

    /// Returns this state's parameter set.
    pub fn parameters(&self) -> (parameters: Parameters)
        ensures
            parameters == self.session().parameters,
    {
        self.context.parameters
    }

    /// Consumes this state and makes its immutable message context shareable
    /// by independent encryption states.
    pub fn into_shared(self) -> (shared: SharedEncryptionContext)
        requires
            self.wf(),
        ensures
            shared.wf(),
            shared.session() == self.session(),
            shared.provider() == self.provider(),
    {
        let Self { context, .. } = self;
        SharedEncryptionContext { context }
    }

    /// Encrypts one random-access segment into a newly allocated buffer.
    ///
    /// # Errors
    ///
    /// Returns an error when the layout belongs to another parameter set, the
    /// plaintext length does not match the layout, or the selected backend
    /// cannot generate a nonce.
    pub fn encrypt_segment(&mut self, plaintext: &[u8], segment: SegmentLayout) -> (result: Result<
        Vec<u8>,
        Error,
    >)
        requires
            old(self).wf(),
        ensures
            final(self).wf(),
            final(self).session() == old(self).session(),
            final(self).provider() == old(self).provider(),
            nonces_used(
                old(self).nonces(),
                final(self).nonces(),
                plaintext_mismatch(
                    old(self).session().parameters,
                    plaintext@.len() as int,
                    segment,
                ),
                match result {
                    Ok(bytes) => Ok(bytes@),
                    Err(error) => Err(error),
                },
            ),
            segment_encrypted(
                old(self).session(),
                plaintext@,
                segment,
                match result {
                    Ok(bytes) => Ok(bytes@),
                    Err(error) => Err(error),
                },
            ),
    {
        self.validate_plaintext_layout(plaintext.len(), segment)?;
        self.encrypt_segment_at(plaintext, segment.position(), segment.kind())
    }

    /// Encrypts one random-access segment into `output`, returning bytes written.
    ///
    /// [`SegmentLayout::ciphertext_length`] gives the required
    /// output length for a segment in a complete message layout.
    ///
    /// # Errors
    ///
    /// Returns an error for invalid input, insufficient output space, or
    /// random generation failure.
    pub fn encrypt_segment_into(
        &mut self,
        plaintext: &[u8],
        segment: SegmentLayout,
        output: &mut [u8],
    ) -> (result: Result<usize, Error>)
        requires
            old(self).wf(),
        ensures
            final(self).wf(),
            final(self).session() == old(self).session(),
            final(self).provider() == old(self).provider(),
            nonces_used(
                old(self).nonces(),
                final(self).nonces(),
                first_error(
                    plaintext_mismatch(
                        old(self).session().parameters,
                        plaintext@.len() as int,
                        segment,
                    ),
                    output_error(old(output)@.len() as int, segment.ciphertext_length() as int),
                ),
                match result {
                    Ok(written) => Ok(final(output)@.take(written as int)),
                    Err(error) => Err(error),
                },
            ),
            segment_encrypted_into(
                old(self).session(),
                plaintext@,
                segment,
                final(self).nonces().last(),
                old(output)@,
                final(output)@,
                result,
            ),
    {
        self.validate_plaintext_layout(plaintext.len(), segment)?;
        self.encrypt_segment_into_at(plaintext, segment.position(), segment.kind(), output)
    }

    /// Encrypts one random-access segment with a given nonce into `output`,
    /// returning bytes written.
    ///
    /// The caller must never give one nonce twice for one message. Prefer
    /// [`Self::encrypt_segment_into`], which draws a random nonce.
    ///
    /// # Errors
    ///
    /// Returns an error for invalid input or insufficient output space.
    pub fn encrypt_segment_with_nonce(
        &mut self,
        nonce: &[u8; AEAD_IV_LENGTH],
        plaintext: &[u8],
        segment: SegmentLayout,
        output: &mut [u8],
    ) -> (result: Result<usize, Error>)
        requires
            old(self).wf(),
        ensures
            final(self).wf(),
            final(self).session() == old(self).session(),
            final(self).provider() == old(self).provider(),
            final(self).nonces() == old(self).nonces(),
            final(output)@.len() == old(output)@.len(),
            match first_error(
                plaintext_mismatch(
                    old(self).session().parameters,
                    plaintext@.len() as int,
                    segment,
                ),
                output_error(old(output)@.len() as int, segment.ciphertext_length() as int),
            ) {
                Some(error) => result == Err::<usize, Error>(error) && final(output)@
                    == old(output)@,
                None => {
                    &&& result == Ok::<usize, Error>(segment.ciphertext_length())
                    &&& final(output)@ == old(self).session().segment(
                        segment.position(),
                        segment.kind(),
                        nonce@,
                        plaintext@,
                    ) + old(output)@.skip(segment.ciphertext_length() as int)
                    &&& old(self).session().encrypts(
                        segment.position(),
                        segment.kind(),
                        plaintext@,
                        final(output)@.take(segment.ciphertext_length() as int),
                    )
                },
            },
    {
        self.validate_plaintext_layout(plaintext.len(), segment)?;
        proof {
            use_type_invariant(&segment);
        }
        let required = check_segment_lengths(
            self.context.parameters,
            plaintext.len(),
            segment.kind(),
            output.len(),
        )?;
        let ghost before = output@;
        write_segment_prefix(output, segment.kind(), required);
        write_segment_nonce(output, nonce);
        assert(output@.take(SEGMENT_PAYLOAD_OFFSET as int) =~= be32(
            prefix_value(segment.kind(), required as int),
        ) + nonce@);
        assert(output@.skip(required as int) =~= before.skip(required as int));
        seal_segment_into(
            &self.context,
            &mut self.keys,
            nonce,
            plaintext,
            segment.position(),
            segment.kind(),
            output,
        )
    }

    /// Encrypts plaintext prepared in a reusable [`SegmentBuffer`].
    ///
    /// Prepare the payload with [`SegmentBuffer::prepare_plaintext`]. On
    /// success, [`SegmentBuffer::ciphertext`] returns the complete ciphertext
    /// segment without copying the plaintext.
    ///
    /// # Errors
    ///
    /// Returns an error for invalid input, insufficient buffer space, or
    /// random generation failure.
    pub fn encrypt_segment_in_place<'a>(
        &mut self,
        buffer: &'a mut SegmentBuffer,
        segment: SegmentLayout,
    ) -> (result: Result<&'a [u8], Error>)
        requires
            old(self).wf(),
            old(buffer).wf(),
        ensures
            final(self).wf(),
            final(self).session() == old(self).session(),
            final(self).provider() == old(self).provider(),
            nonces_used(
                old(self).nonces(),
                final(self).nonces(),
                match old(buffer).plaintext_view() {
                    None => Some(Error::InvalidBufferState),
                    Some(plaintext) => first_error(
                        plaintext_mismatch(
                            old(self).session().parameters,
                            plaintext.len() as int,
                            segment,
                        ),
                        plaintext_buffer_error(old(self).session().parameters, *old(buffer)),
                    ),
                },
                match result {
                    Ok(bytes) => Ok(bytes@),
                    Err(error) => Err(error),
                },
            ),
            segment_encrypted_in_place(
                old(self).session(),
                segment,
                final(self).nonces().last(),
                *old(buffer),
                *final(buffer),
                result,
            ),
    {
        let plaintext_length = buffer.plaintext_length()?;
        self.validate_plaintext_layout(plaintext_length, segment)?;
        self.encrypt_segment_in_place_at(buffer, segment.position(), segment.kind())
    }

    pub(crate) fn encrypt_segment_in_place_at<'a>(
        &mut self,
        buffer: &'a mut SegmentBuffer,
        position: u64,
        kind: SegmentKind,
    ) -> (result: Result<&'a [u8], Error>)
        requires
            old(self).wf(),
            old(buffer).wf(),
        ensures
            final(self).wf(),
            final(self).session() == old(self).session(),
            final(self).provider() == old(self).provider(),
            nonces_used(
                old(self).nonces(),
                final(self).nonces(),
                first_error(
                    plaintext_buffer_error(old(self).session().parameters, *old(buffer)),
                    plaintext_error(
                        old(self).session().parameters,
                        kind,
                        old(buffer).plaintext_view()->0.len() as int,
                    ),
                ),
                match result {
                    Ok(bytes) => Ok(bytes@),
                    Err(error) => Err(error),
                },
            ),
            ({
                let parameters = old(self).session().parameters;
                let length = old(buffer).plaintext_view()->0.len() as int;
                let early = plaintext_buffer_error(parameters, *old(buffer));
                let size = plaintext_error(parameters, kind, length);
                if early is None && size is Some {
                    &&& result == Err::<&'a [u8], Error>(size->0)
                    &&& final(buffer).wf()
                    &&& final(buffer).parameters() == old(buffer).parameters()
                    &&& final(buffer).state() is Empty
                    &&& final(buffer).raw() == old(buffer).raw()
                } else {
                    encrypted_in_place(
                        old(self).session(),
                        position,
                        kind,
                        early,
                        final(self).nonces().last(),
                        *old(buffer),
                        *final(buffer),
                        result,
                    )
                }
            }),
    {
        if !buffer.matches(self.parameters()) {
            return Err(Error::InvalidParameters);
        }
        let plaintext_length = buffer.plaintext_length()?;
        let result = self.encrypt_segment_in_place_raw_at(
            buffer.raw_mut(),
            plaintext_length,
            position,
            kind,
        );
        match result {
            Ok(written) => {
                assert(buffer.raw() =~= buffer.raw().take(written as int) + buffer.raw().skip(
                    written as int,
                ));
                buffer.mark_ciphertext(written);
                buffer.ciphertext()
            },
            Err(error) => {
                buffer.mark_empty();
                Err(error)
            },
        }
    }

    /// Encrypts a segment in caller-managed storage.
    ///
    /// Before calling, place [`SegmentLayout::plaintext_length`] bytes at
    /// [`crate::low_level::SEGMENT_PAYLOAD_OFFSET`]. The buffer must be large
    /// enough for the complete encrypted segment. Prefer
    /// [`SegmentBuffer`] unless direct pool, stack, or arena integration is
    /// required.
    ///
    /// # Errors
    ///
    /// Returns an error for a layout of another parameter set, insufficient
    /// buffer space, or random-generation failure.
    pub fn encrypt_segment_in_place_raw(&mut self, buffer: &mut [u8], segment: SegmentLayout) -> (
    result: Result<usize, Error>)
        requires
            old(self).wf(),
        ensures
            final(self).wf(),
            final(self).session() == old(self).session(),
            final(self).provider() == old(self).provider(),
            nonces_used(
                old(self).nonces(),
                final(self).nonces(),
                first_error(
                    if segment.parameters() != old(self).session().parameters {
                        Some(Error::InvalidParameters)
                    } else {
                        None
                    },
                    output_error(old(buffer)@.len() as int, segment.ciphertext_length() as int),
                ),
                match result {
                    Ok(written) => Ok(final(buffer)@.take(written as int)),
                    Err(error) => Err(error),
                },
            ),
            segment_encrypted_raw(
                old(self).session(),
                segment,
                final(self).nonces().last(),
                old(buffer)@,
                final(buffer)@,
                result,
            ),
    {
        validate_layout(self.context.parameters, segment)?;
        proof {
            use_type_invariant(&segment);
        }
        self.encrypt_segment_in_place_raw_at(
            buffer,
            segment.plaintext_length(),
            segment.position(),
            segment.kind(),
        )
    }

    pub fn encrypt_segment_at(
        &mut self,
        plaintext: &[u8],
        position: u64,
        kind: SegmentKind,
    ) -> (result: Result<Vec<u8>, Error>)
        requires
            old(self).wf(),
        ensures
            final(self).wf(),
            final(self).session() == old(self).session(),
            final(self).provider() == old(self).provider(),
            nonces_used(
                old(self).nonces(),
                final(self).nonces(),
                plaintext_error(old(self).session().parameters, kind, plaintext@.len() as int),
                match result {
                    Ok(bytes) => Ok(bytes@),
                    Err(error) => Err(error),
                },
            ),
            encrypted(
                old(self).session(),
                position,
                kind,
                plaintext@,
                plaintext_error(old(self).session().parameters, kind, plaintext@.len() as int),
                match result {
                    Ok(bytes) => Ok(bytes@),
                    Err(error) => Err(error),
                },
            ),
    {
        let required = ciphertext_segment_size(self.context.parameters, plaintext.len(), kind)?;
        let mut output: Vec<u8> = vec![0u8; required];
        self.encrypt_segment_into_at(plaintext, position, kind, output.as_mut_slice())?;
        assert(output@.take(required as int) =~= output@);
        Ok(output)
    }

    pub fn encrypt_segment_into_at(
        &mut self,
        plaintext: &[u8],
        position: u64,
        kind: SegmentKind,
        output: &mut [u8],
    ) -> (result: Result<usize, Error>)
        requires
            old(self).wf(),
        ensures
            final(self).wf(),
            final(self).session() == old(self).session(),
            final(self).provider() == old(self).provider(),
            nonces_used(
                old(self).nonces(),
                final(self).nonces(),
                encryption_error(
                    old(self).session().parameters,
                    kind,
                    plaintext@.len() as int,
                    old(output)@.len() as int,
                ),
                match result {
                    Ok(written) => Ok(final(output)@.take(written as int)),
                    Err(error) => Err(error),
                },
            ),
            encrypted_into(
                old(self).session(),
                position,
                kind,
                plaintext@,
                encryption_error(
                    old(self).session().parameters,
                    kind,
                    plaintext@.len() as int,
                    old(output)@.len() as int,
                ),
                final(self).nonces().last(),
                old(output)@,
                final(output)@,
                result,
            ),
    {
        let required = check_segment_lengths(
            self.context.parameters,
            plaintext.len(),
            kind,
            output.len(),
        )?;
        let nonce = write_segment_framing(&mut self.nonces, output, kind, required)?;
        assert(output@.take(SEGMENT_PAYLOAD_OFFSET as int) =~= be32(
            prefix_value(kind, required as int),
        ) + nonce@);
        assert(output@.skip(required as int) =~= old(output)@.skip(required as int));
        let written = seal_segment_into(
            &self.context,
            &mut self.keys,
            &nonce,
            plaintext,
            position,
            kind,
            output,
        )?;
        proof {
            let segment = self.session().segment(position, kind, nonce@, plaintext@);
            assert(output@.skip(written as int) =~= old(output)@.skip(written as int));
            assert(output@.take(written as int) =~= segment);
            assert(segment_nonce(segment) =~= nonce@);
        }
        Ok(written)
    }

    pub(crate) fn encrypt_segment_in_place_raw_at(
        &mut self,
        buffer: &mut [u8],
        plaintext_length: usize,
        position: u64,
        kind: SegmentKind,
    ) -> (result: Result<usize, Error>)
        requires
            old(self).wf(),
        ensures
            final(self).wf(),
            final(self).session() == old(self).session(),
            final(self).provider() == old(self).provider(),
            nonces_used(
                old(self).nonces(),
                final(self).nonces(),
                encryption_error(
                    old(self).session().parameters,
                    kind,
                    plaintext_length as int,
                    old(buffer)@.len() as int,
                ),
                match result {
                    Ok(written) => Ok(final(buffer)@.take(written as int)),
                    Err(error) => Err(error),
                },
            ),
            final(buffer)@.len() == old(buffer)@.len(),
            encryption_error(
                old(self).session().parameters,
                kind,
                plaintext_length as int,
                old(buffer)@.len() as int,
            ) is None ==> encrypted_into(
                old(self).session(),
                position,
                kind,
                old(buffer)@.subrange(
                    SEGMENT_PAYLOAD_OFFSET as int,
                    SEGMENT_PAYLOAD_OFFSET + plaintext_length,
                ),
                None,
                final(self).nonces().last(),
                old(buffer)@,
                final(buffer)@,
                result,
            ),
            encryption_error(
                old(self).session().parameters,
                kind,
                plaintext_length as int,
                old(buffer)@.len() as int,
            ) matches Some(error) ==> result == Err::<usize, Error>(error) && final(buffer)@
                == old(buffer)@,
    {
        let required = check_segment_lengths(
            self.context.parameters,
            plaintext_length,
            kind,
            buffer.len(),
        )?;
        let nonce = write_segment_framing(&mut self.nonces, buffer, kind, required)?;
        assert(buffer@.take(SEGMENT_PAYLOAD_OFFSET as int) =~= be32(
            prefix_value(kind, required as int),
        ) + nonce@);
        assert(buffer@.skip(required as int) =~= old(buffer)@.skip(required as int));
        assert(buffer@.subrange(
            SEGMENT_PAYLOAD_OFFSET as int,
            SEGMENT_PAYLOAD_OFFSET + plaintext_length,
        ) =~= old(buffer)@.subrange(
            SEGMENT_PAYLOAD_OFFSET as int,
            SEGMENT_PAYLOAD_OFFSET + plaintext_length,
        ));
        let written = seal_segment_in_place(
            &self.context,
            &mut self.keys,
            &nonce,
            buffer,
            plaintext_length,
            position,
            kind,
        )?;
        proof {
            let segment = self.session().segment(
                position,
                kind,
                nonce@,
                old(buffer)@.subrange(
                    SEGMENT_PAYLOAD_OFFSET as int,
                    SEGMENT_PAYLOAD_OFFSET + plaintext_length,
                ),
            );
            assert(buffer@.skip(written as int) =~= old(buffer)@.skip(written as int));
            assert(buffer@.take(written as int) =~= segment);
            assert(segment_nonce(segment) =~= nonce@);
        }
        Ok(written)
    }

    fn validate_plaintext_layout(&self, actual: usize, segment: SegmentLayout) -> (result: Result<
        (),
        Error,
    >)
        ensures
            segment.wf(),
            match result {
                Ok(_) => plaintext_mismatch(
                    self.session().parameters,
                    actual as int,
                    segment,
                ) is None,
                Err(error) => plaintext_mismatch(self.session().parameters, actual as int, segment)
                    == Some(error),
            },
    {
        proof {
            use_type_invariant(&segment);
        }
        validate_layout(self.context.parameters, segment)?;
        let expected = segment.plaintext_length();
        if actual == expected {
            Ok(())
        } else {
            Err(
                Error::InvalidPlaintextLength {
                    actual,
                    required: LengthRequirement::Exactly(expected),
                },
            )
        }
    }
}

/// The outcome of encrypting a segment in a buffer: an early error that leaves
/// the buffer as it was, or a segment that the buffer then holds, or an error
/// that leaves the buffer empty, with framing bytes in its storage.
pub open spec fn encrypted_in_place(
    session: Session,
    position: u64,
    kind: SegmentKind,
    early: Option<Error>,
    nonce: Seq<u8>,
    before: SegmentBuffer,
    after: SegmentBuffer,
    result: Result<&[u8], Error>,
) -> bool {
    let required = SEGMENT_OVERHEAD + before.plaintext_view()->0.len();
    match early {
        Some(error) => result == Err::<&[u8], Error>(error) && after == before,
        None => {
            &&& after.wf()
            &&& after.parameters() == before.parameters()
            &&& match result {
                Ok(segment) => {
                    &&& after.ciphertext_view() == Some(segment@)
                    &&& after.raw() == segment@ + before.raw().skip(required)
                },
                Err(error) => {
                    &&& after.state() is Empty
                    &&& after.raw() == left_by(error, kind, required, nonce, before.raw())
                },
            }
            &&& encrypted(
                session,
                position,
                kind,
                before.plaintext_view()->0,
                None,
                match result {
                    Ok(segment) => Ok(segment@),
                    Err(error) => Err(error),
                },
            )
        },
    }
}

/// Shareable message context for parallel random-access encryption.
///
/// Create this by consuming an [`EncryptionState`] with
/// [`EncryptionState::into_shared`], then create one [`EncryptionState`] for
/// each independently executing task.
pub struct SharedEncryptionContext {
    context: Arc<MessageContext>,
}

impl Clone for SharedEncryptionContext {
    fn clone(&self) -> (copy: Self)
        ensures
            copy == *self,
    {
        SharedEncryptionContext { context: share(&self.context) }
    }
}

impl SharedEncryptionContext {
    /// What the states of this context encrypt segments with.
    pub closed spec fn session(&self) -> Session {
        self.context.session()
    }

    pub closed spec fn spec_provider(&self) -> Provider {
        self.context.provider
    }

    /// The parameters are valid.
    pub closed spec fn wf(&self) -> bool {
        self.context.parameters.wf()
    }

    /// Returns the provider retained by this context.
    #[verifier::when_used_as_spec(spec_provider)]
    pub fn provider(&self) -> (provider: Provider)
        ensures
            provider == self.provider(),
    {
        self.context.provider
    }

    /// Returns this context's parameter set.
    pub fn parameters(&self) -> (parameters: Parameters)
        ensures
            parameters == self.session().parameters,
    {
        self.context.parameters
    }

    /// Creates an independent encryption state with its own key cache and
    /// nonce generator.
    pub fn fork(&self) -> (state: EncryptionState)
        requires
            self.wf(),
        ensures
            state.wf(),
            state.session() == self.session(),
            state.provider() == self.provider(),
            state.nonces().is_spent(),
            !state.nonces().seeded,
    {
        EncryptionState {
            context: share(&self.context),
            keys: KeyCache::empty(),
            nonces: NonceGenerator::new(ProviderRng::new(self.context.provider)),
        }
    }
}

/// The outcome of decrypting a segment in a buffer: an early error that leaves
/// the buffer as it was, or the plaintext that the buffer then holds, or an
/// error that leaves the buffer empty. Only that of authentication changes its
/// storage.
pub open spec fn decrypted_in_place(
    early: Option<Error>,
    decrypted: Result<Seq<u8>, Error>,
    before: SegmentBuffer,
    after: SegmentBuffer,
    result: Result<Seq<u8>, Error>,
) -> bool {
    match early {
        Some(error) => result == Err::<Seq<u8>, Error>(error) && after == before,
        None => {
            &&& result == decrypted
            &&& result matches Ok(plaintext) ==> plaintext.len() + SEGMENT_OVERHEAD
                == before.ciphertext_view()->0.len()
            &&& result matches Err(error) ==> {
                &&& after.wf()
                &&& after.parameters() == before.parameters()
                &&& after.state() is Empty
                &&& error != Error::AuthenticationFailed ==> after.raw() == before.raw()
            }
        },
    }
}

/// The storage of a buffer once `plaintext` stands in the place of `length`
/// bytes of payload.
pub open spec fn storage_with(storage: Seq<u8>, length: int, plaintext: Seq<u8>) -> Seq<u8> {
    storage.take(SEGMENT_PAYLOAD_OFFSET as int) + plaintext + storage.skip(
        SEGMENT_PAYLOAD_OFFSET + length,
    )
}

/// Applies an in-place decryption outcome to the buffer's state machine:
/// authenticated plaintext on success, an empty buffer on failure.
fn finish_in_place_decrypt(buffer: &mut SegmentBuffer, result: Result<usize, Error>) -> (outcome:
    Result<&mut [u8], Error>)
    requires
        old(buffer).parameters().wf(),
        old(buffer).raw().len() == old(buffer).parameters().segment_length(),
        result matches Ok(length) ==> length <= old(buffer).parameters().payload_length(),
    ensures
        final(buffer).parameters() == old(buffer).parameters(),
        match result {
            Ok(length) => {
                &&& outcome is Ok
                &&& outcome->Ok_0@ == old(buffer).raw().subrange(
                    SEGMENT_PAYLOAD_OFFSET as int,
                    SEGMENT_PAYLOAD_OFFSET + length,
                )
                &&& final(outcome->Ok_0)@.len() == length ==> final(buffer).wf()
                    && final(buffer).plaintext_view() == Some(final(outcome->Ok_0)@)
                &&& final(buffer).raw() == storage_with(
                    old(buffer).raw(),
                    length as int,
                    final(outcome->Ok_0)@,
                )
            },
            Err(error) => {
                &&& outcome is Err
                &&& outcome->Err_0 == error
                &&& final(buffer).wf()
                &&& final(buffer).state() is Empty
                &&& final(buffer).raw() == old(buffer).raw()
            },
        },
{
    match result {
        Ok(length) => {
            buffer.mark_plaintext(length);
            buffer.plaintext_mut()
        },
        Err(error) => {
            buffer.mark_empty();
            Err(error)
        },
    }
}

/// State for the specification's random-access decryption functions.
///
/// For a seekable complete ciphertext, [`Parameters::ciphertext_layout`]
/// supplies a [`SegmentLayout`] that can be passed directly to each operation.
/// Layout metadata is not authenticated until segment decryption succeeds.
pub struct DecryptionState {
    context: Arc<MessageContext>,
    keys: KeyCache,
}

impl DecryptionState {
    /// What this state decrypts segments with.
    pub closed spec fn session(&self) -> Session {
        self.context.session()
    }

    pub closed spec fn spec_provider(&self) -> Provider {
        self.context.provider
    }

    /// The cached key is one of the session.
    pub closed spec fn wf(&self) -> bool {
        self.keys.wf(self.context.session()) && self.context.parameters.wf()
    }

    /// Returns the provider used by this state.
    #[verifier::when_used_as_spec(spec_provider)]
    pub fn provider(&self) -> (provider: Provider)
        ensures
            provider == self.provider(),
    {
        self.context.provider
    }

    /// Returns this state's parameter set.
    pub fn parameters(&self) -> (parameters: Parameters)
        ensures
            parameters == self.session().parameters,
    {
        self.context.parameters
    }

    /// Consumes this state and makes its immutable message context shareable
    /// by independent decryption states.
    pub fn into_shared(self) -> (shared: SharedDecryptionContext)
        requires
            self.wf(),
        ensures
            shared.wf(),
            shared.session() == self.session(),
            shared.provider() == self.provider(),
    {
        let Self { context, .. } = self;
        SharedDecryptionContext { context }
    }

    /// Decrypts one random-access segment into a newly allocated buffer.
    ///
    /// # Errors
    ///
    /// Returns an error when the layout belongs to another parameter set, the
    /// encrypted length does not match it, or framing or authentication
    /// validation fails.
    pub fn decrypt_segment(&mut self, ciphertext_segment: &[u8], segment: SegmentLayout) -> (
    result: Result<Vec<u8>, Error>)
        requires
            old(self).wf(),
        ensures
            final(self).wf(),
            final(self).session() == old(self).session(),
            final(self).provider() == old(self).provider(),
            (match result {
                Ok(plaintext) => Ok(plaintext@),
                Err(error) => Err(error),
            }) == segment_decrypted(old(self).session(), ciphertext_segment@, segment),
    {
        self.validate_ciphertext_layout(ciphertext_segment.len(), segment)?;
        self.decrypt_segment_at(ciphertext_segment, segment.position(), segment.kind())
    }

    /// Decrypts one random-access segment into `output`, returning bytes written.
    ///
    /// [`SegmentLayout::plaintext_length`] gives the required output length.
    ///
    /// Authentication failure may overwrite bytes in `output`; callers must not
    /// use its contents unless this method succeeds.
    ///
    /// # Errors
    ///
    /// Returns an error for malformed input, insufficient output space, or
    /// authentication failure.
    pub fn decrypt_segment_into(
        &mut self,
        ciphertext_segment: &[u8],
        segment: SegmentLayout,
        output: &mut [u8],
    ) -> (result: Result<usize, Error>)
        requires
            old(self).wf(),
        ensures
            final(self).wf(),
            final(self).session() == old(self).session(),
            final(self).provider() == old(self).provider(),
            final(output)@.len() == old(output)@.len(),
            segment_decrypted_into(
                old(self).session(),
                ciphertext_segment@,
                segment,
                old(output)@,
                final(output)@,
                result,
            ),
    {
        self.validate_ciphertext_layout(ciphertext_segment.len(), segment)?;
        self.decrypt_segment_into_at(
            ciphertext_segment,
            segment.position(),
            segment.kind(),
            output,
        )
    }

    /// Authenticates and decrypts a segment in a reusable [`SegmentBuffer`].
    ///
    /// Prepare the ciphertext with [`SegmentBuffer::prepare_ciphertext`]. On
    /// success, this returns the authenticated plaintext within the buffer.
    ///
    /// Authentication failure may overwrite the ciphertext payload. Callers
    /// must not use the returned buffer contents unless this method succeeds.
    ///
    /// # Errors
    ///
    /// Returns an error for malformed input or authentication failure.
    pub fn decrypt_segment_in_place<'a>(
        &mut self,
        buffer: &'a mut SegmentBuffer,
        segment: SegmentLayout,
    ) -> (result: Result<&'a mut [u8], Error>)
        requires
            old(self).wf(),
            old(buffer).wf(),
        ensures
            final(self).wf(),
            final(self).session() == old(self).session(),
            final(self).provider() == old(self).provider(),
            result matches Ok(slice) ==> final(slice)@.len() == slice@.len()
                ==> final(buffer).wf() && final(buffer).parameters() == old(buffer).parameters()
                && final(buffer).plaintext_view() == Some(final(slice)@),
            result matches Ok(slice) ==> final(buffer).raw() == storage_with(
                old(buffer).raw(),
                slice@.len() as int,
                final(slice)@,
            ),
            segment_decrypted_in_place(
                old(self).session(),
                segment,
                *old(buffer),
                *final(buffer),
                match result {
                    Ok(slice) => Ok(slice@),
                    Err(error) => Err(error),
                },
            ),
    {
        let ciphertext_length = buffer.ciphertext_length()?;
        self.validate_ciphertext_layout(ciphertext_length, segment)?;
        self.decrypt_segment_in_place_at(buffer, segment.position(), segment.kind())
    }

    pub(crate) fn decrypt_segment_in_place_at<'a>(
        &mut self,
        buffer: &'a mut SegmentBuffer,
        position: u64,
        kind: SegmentKind,
    ) -> (result: Result<&'a mut [u8], Error>)
        requires
            old(self).wf(),
            old(buffer).wf(),
        ensures
            final(self).wf(),
            final(self).session() == old(self).session(),
            final(self).provider() == old(self).provider(),
            result matches Ok(slice) ==> final(slice)@.len() == slice@.len()
                ==> final(buffer).wf() && final(buffer).parameters() == old(buffer).parameters()
                && final(buffer).plaintext_view() == Some(final(slice)@),
            result matches Ok(slice) ==> final(buffer).raw() == storage_with(
                old(buffer).raw(),
                slice@.len() as int,
                final(slice)@,
            ),
            decrypted_in_place(
                ciphertext_buffer_error(old(self).session().parameters, *old(buffer)),
                old(self).session().decrypted(position, kind, old(buffer).ciphertext_view()->0),
                *old(buffer),
                *final(buffer),
                match result {
                    Ok(slice) => Ok(slice@),
                    Err(error) => Err(error),
                },
            ),
    {
        if !buffer.matches(self.parameters()) {
            return Err(Error::InvalidParameters);
        }
        let ciphertext_length = buffer.ciphertext_length()?;
        let segment = range_mut(buffer.raw_mut(), 0, ciphertext_length);
        assert(segment@ =~= old(buffer).ciphertext_view()->0);
        let ghost decrypted = self.session().decrypted(position, kind, segment@);
        let result: Result<usize, Error> = match self.decrypt_segment_in_place_raw_at(
            segment,
            position,
            kind,
        ) {
            Ok(plaintext) => Ok(plaintext.len()),
            Err(error) => Err(error),
        };
        assert(result matches Ok(length) ==> buffer.raw().subrange(
            SEGMENT_PAYLOAD_OFFSET as int,
            SEGMENT_PAYLOAD_OFFSET + length,
        ) =~= decrypted->Ok_0);
        assert(result matches Ok(length) ==> buffer.raw().take(SEGMENT_PAYLOAD_OFFSET as int)
            =~= old(buffer).raw().take(SEGMENT_PAYLOAD_OFFSET as int));
        assert(result matches Ok(length) ==> buffer.raw().skip(SEGMENT_PAYLOAD_OFFSET + length)
            =~= old(buffer).raw().skip(SEGMENT_PAYLOAD_OFFSET + length));
        assert(result matches Err(error) ==> error != Error::AuthenticationFailed ==> buffer.raw()
            =~= old(buffer).raw());
        finish_in_place_decrypt(buffer, result)
    }

    /// In-place decryption for a segment whose framing prefix was already
    /// decoded, so the prefix is not parsed and validated a second time.
    pub(crate) fn decrypt_segment_in_place_at_framed<'a>(
        &mut self,
        buffer: &'a mut SegmentBuffer,
        position: u64,
        framing: SegmentFraming,
    ) -> (result: Result<&'a mut [u8], Error>)
        requires
            old(self).wf(),
            old(buffer).wf(),
        ensures
            final(self).wf(),
            final(self).session() == old(self).session(),
            final(self).provider() == old(self).provider(),
            result matches Ok(slice) ==> final(slice)@.len() == slice@.len()
                ==> final(buffer).wf() && final(buffer).parameters() == old(buffer).parameters()
                && final(buffer).plaintext_view() == Some(final(slice)@),
            result matches Ok(slice) ==> final(buffer).raw() == storage_with(
                old(buffer).raw(),
                slice@.len() as int,
                final(slice)@,
            ),
            decrypted_in_place(
                first_error(
                    ciphertext_buffer_error(old(self).session().parameters, *old(buffer)),
                    framed_length_error(
                        old(buffer).ciphertext_view()->0.len() as int,
                        framing.ciphertext_length() as int,
                    ),
                ),
                old(self).session().authenticated(
                    position,
                    framing.kind(),
                    old(buffer).ciphertext_view()->0,
                ),
                *old(buffer),
                *final(buffer),
                match result {
                    Ok(slice) => Ok(slice@),
                    Err(error) => Err(error),
                },
            ),
    {
        proof {
            use_type_invariant(&framing);
        }
        if !buffer.matches(self.parameters()) {
            return Err(Error::InvalidParameters);
        }
        let ciphertext_length = buffer.ciphertext_length()?;
        let expected = framing.ciphertext_length();
        if ciphertext_length != expected {
            return Err(
                Error::InvalidCiphertextLength {
                    actual: ciphertext_length,
                    required: LengthRequirement::Exactly(expected),
                },
            );
        }
        let segment = range_mut(buffer.raw_mut(), 0, ciphertext_length);
        assert(segment@ =~= old(buffer).ciphertext_view()->0);
        let ghost opened = self.session().authenticated(position, framing.kind(), segment@);
        let result: Result<usize, Error> = match open_segment_in_place(
            &self.context,
            &mut self.keys,
            segment,
            position,
            framing.kind(),
            framing.plaintext_length(),
        ) {
            Ok(plaintext) => Ok(plaintext.len()),
            Err(error) => Err(error),
        };
        assert(result matches Ok(length) ==> buffer.raw().subrange(
            SEGMENT_PAYLOAD_OFFSET as int,
            SEGMENT_PAYLOAD_OFFSET + length,
        ) =~= opened->Ok_0);
        assert(result matches Ok(length) ==> buffer.raw().take(SEGMENT_PAYLOAD_OFFSET as int)
            =~= old(buffer).raw().take(SEGMENT_PAYLOAD_OFFSET as int));
        assert(result matches Ok(length) ==> buffer.raw().skip(SEGMENT_PAYLOAD_OFFSET + length)
            =~= old(buffer).raw().skip(SEGMENT_PAYLOAD_OFFSET + length));
        assert(result matches Err(error) ==> error != Error::AuthenticationFailed ==> buffer.raw()
            =~= old(buffer).raw());
        finish_in_place_decrypt(buffer, result)
    }

    /// Authenticates and decrypts a segment in caller-managed storage.
    ///
    /// On success, the returned slice identifies the authenticated plaintext
    /// within `ciphertext_segment`. Prefer [`SegmentBuffer`] unless direct pool,
    /// stack, or arena integration is required.
    ///
    /// Authentication failure may overwrite the ciphertext payload. Callers
    /// must not use the buffer contents unless this method succeeds.
    ///
    /// # Errors
    ///
    /// Returns an error for a layout of another parameter set, a buffer that
    /// is too short, malformed framing, or authentication failure.
    pub fn decrypt_segment_in_place_raw<'a>(
        &mut self,
        ciphertext_segment: &'a mut [u8],
        segment: SegmentLayout,
    ) -> (result: Result<&'a mut [u8], Error>)
        requires
            old(self).wf(),
        ensures
            final(self).wf(),
            final(self).session() == old(self).session(),
            final(self).provider() == old(self).provider(),
            (match result {
                Ok(slice) => Ok(slice@),
                Err(error) => Err(error),
            }) == segment_decrypted_raw(old(self).session(), old(ciphertext_segment)@, segment),
            match result {
                Ok(slice) => final(ciphertext_segment)@ == old(ciphertext_segment)@.take(
                    SEGMENT_PAYLOAD_OFFSET as int,
                ) + final(slice)@ + old(ciphertext_segment)@.skip(
                    SEGMENT_PAYLOAD_OFFSET + slice@.len(),
                ),
                Err(error) => {
                    &&& final(ciphertext_segment)@.len() == old(ciphertext_segment)@.len()
                    &&& error != Error::AuthenticationFailed ==> final(ciphertext_segment)@
                        == old(ciphertext_segment)@
                    &&& error == Error::AuthenticationFailed ==> kept_around(
                        old(ciphertext_segment)@,
                        final(ciphertext_segment)@,
                        segment.ciphertext_length() - AEAD_TAG_LENGTH,
                    )
                },
            },
    {
        validate_layout(self.context.parameters, segment)?;
        let required = segment.ciphertext_length();
        if ciphertext_segment.len() < required {
            return Err(
                Error::InvalidCiphertextLength {
                    actual: ciphertext_segment.len(),
                    required: LengthRequirement::AtLeast(required),
                },
            );
        }
        proof {
            use_type_invariant(&segment);
            lemma_kept_around_in_prefix(ciphertext_segment@, required as int);
        }
        let prefix = range_mut(ciphertext_segment, 0, required);
        self.decrypt_segment_in_place_raw_at(prefix, segment.position(), segment.kind())
    }

    pub fn decrypt_segment_at(
        &mut self,
        ciphertext_segment: &[u8],
        position: u64,
        kind: SegmentKind,
    ) -> (result: Result<Vec<u8>, Error>)
        requires
            old(self).wf(),
        ensures
            final(self).wf(),
            final(self).session() == old(self).session(),
            final(self).provider() == old(self).provider(),
            (match result {
                Ok(plaintext) => Ok(plaintext@),
                Err(error) => Err(error),
            }) == old(self).session().decrypted(position, kind, ciphertext_segment@),
    {
        let plaintext_length = validate_segment(self.context.parameters, ciphertext_segment, kind)?;
        let mut output: Vec<u8> = vec![0u8; plaintext_length];
        decrypt_segment_into_inner(
            &self.context,
            &mut self.keys,
            ciphertext_segment,
            position,
            kind,
            plaintext_length,
            output.as_mut_slice(),
        )?;
        assert(output@ =~= self.session().decrypted(position, kind, ciphertext_segment@)->Ok_0);
        Ok(output)
    }

    /// Allocating decryption for a segment whose framing prefix was already
    /// decoded, so the prefix is not parsed and validated a second time.
    pub(crate) fn decrypt_segment_at_framed(
        &mut self,
        ciphertext_segment: &[u8],
        position: u64,
        framing: SegmentFraming,
    ) -> (result: Result<Vec<u8>, Error>)
        requires
            old(self).wf(),
            framing.plaintext_length() <= u32::MAX,
        ensures
            final(self).wf(),
            final(self).session() == old(self).session(),
            final(self).provider() == old(self).provider(),
            (match result {
                Ok(plaintext) => Ok(plaintext@),
                Err(error) => Err(error),
            }) == match framed_length_error(
                ciphertext_segment@.len() as int,
                framing.ciphertext_length() as int,
            ) {
                Some(error) => Err::<Seq<u8>, Error>(error),
                None => old(self).session().authenticated(
                    position,
                    framing.kind(),
                    ciphertext_segment@,
                ),
            },
    {
        let mut output: Vec<u8> = vec![0u8; framing.plaintext_length()];
        self.decrypt_segment_into_at_framed(
            ciphertext_segment,
            position,
            framing,
            output.as_mut_slice(),
        )?;
        assert(output@ =~= self.session().authenticated(
            position,
            framing.kind(),
            ciphertext_segment@,
        )->Ok_0);
        Ok(output)
    }

    pub(crate) fn decrypt_segment_into_at(
        &mut self,
        ciphertext_segment: &[u8],
        position: u64,
        kind: SegmentKind,
        output: &mut [u8],
    ) -> (result: Result<usize, Error>)
        requires
            old(self).wf(),
        ensures
            final(self).wf(),
            final(self).session() == old(self).session(),
            final(self).provider() == old(self).provider(),
            final(output)@.len() == old(output)@.len(),
            opened_into(
                first_error(
                    framing_error(old(self).session().parameters, kind, ciphertext_segment@),
                    output_error(
                        old(output)@.len() as int,
                        ciphertext_segment@.len() - SEGMENT_OVERHEAD,
                    ),
                ),
                old(self).session().authenticated(position, kind, ciphertext_segment@),
                ciphertext_segment@.len() - SEGMENT_OVERHEAD,
                old(output)@,
                final(output)@,
                result,
            ),
    {
        let plaintext_length = validate_segment(self.context.parameters, ciphertext_segment, kind)?;
        decrypt_segment_into_inner(
            &self.context,
            &mut self.keys,
            ciphertext_segment,
            position,
            kind,
            plaintext_length,
            output,
        )
    }

    pub(crate) fn decrypt_segment_into_at_framed(
        &mut self,
        ciphertext_segment: &[u8],
        position: u64,
        framing: SegmentFraming,
        output: &mut [u8],
    ) -> (result: Result<usize, Error>)
        requires
            old(self).wf(),
            framing.plaintext_length() <= u32::MAX,
        ensures
            final(self).wf(),
            final(self).session() == old(self).session(),
            final(self).provider() == old(self).provider(),
            final(output)@.len() == old(output)@.len(),
            opened_into(
                first_error(
                    framed_length_error(
                        ciphertext_segment@.len() as int,
                        framing.ciphertext_length() as int,
                    ),
                    output_error(old(output)@.len() as int, framing.plaintext_length() as int),
                ),
                old(self).session().authenticated(position, framing.kind(), ciphertext_segment@),
                framing.plaintext_length() as int,
                old(output)@,
                final(output)@,
                result,
            ),
    {
        proof {
            use_type_invariant(&framing);
        }
        let expected = framing.ciphertext_length();
        if ciphertext_segment.len() != expected {
            return Err(
                Error::InvalidCiphertextLength {
                    actual: ciphertext_segment.len(),
                    required: LengthRequirement::Exactly(expected),
                },
            );
        }
        decrypt_segment_into_inner(
            &self.context,
            &mut self.keys,
            ciphertext_segment,
            position,
            framing.kind(),
            framing.plaintext_length(),
            output,
        )
    }

    pub(crate) fn decrypt_segment_in_place_raw_at<'a>(
        &mut self,
        ciphertext_segment: &'a mut [u8],
        position: u64,
        kind: SegmentKind,
    ) -> (result: Result<&'a mut [u8], Error>)
        requires
            old(self).wf(),
        ensures
            final(self).wf(),
            final(self).session() == old(self).session(),
            final(self).provider() == old(self).provider(),
            (match result {
                Ok(slice) => Ok(slice@),
                Err(error) => Err(error),
            }) == old(self).session().decrypted(position, kind, old(ciphertext_segment)@),
            match result {
                Ok(slice) => slice@.len() + SEGMENT_OVERHEAD == old(ciphertext_segment)@.len()
                    && slice@.len() <= old(self).session().parameters.payload_length()
                    && final(ciphertext_segment)@ == old(ciphertext_segment)@.take(
                    SEGMENT_PAYLOAD_OFFSET as int,
                ) + final(slice)@ + old(ciphertext_segment)@.skip(
                    SEGMENT_PAYLOAD_OFFSET + slice@.len(),
                ),
                Err(error) => {
                    &&& final(ciphertext_segment)@.len() == old(ciphertext_segment)@.len()
                    &&& error != Error::AuthenticationFailed ==> final(ciphertext_segment)@
                        == old(ciphertext_segment)@
                    &&& error == Error::AuthenticationFailed ==> kept_around(
                        old(ciphertext_segment)@,
                        final(ciphertext_segment)@,
                        old(ciphertext_segment)@.len() - AEAD_TAG_LENGTH,
                    )
                },
            },
    {
        let plaintext_length = validate_segment(self.context.parameters, ciphertext_segment, kind)?;
        open_segment_in_place(
            &self.context,
            &mut self.keys,
            ciphertext_segment,
            position,
            kind,
            plaintext_length,
        )
    }

    fn validate_ciphertext_layout(&self, actual: usize, segment: SegmentLayout) -> (result: Result<
        (),
        Error,
    >)
        ensures
            segment.wf(),
            match result {
                Ok(_) => ciphertext_mismatch(
                    self.session().parameters,
                    actual as int,
                    segment,
                ) is None,
                Err(error) => ciphertext_mismatch(
                    self.session().parameters,
                    actual as int,
                    segment,
                ) == Some(error),
            },
    {
        proof {
            use_type_invariant(&segment);
        }
        validate_layout(self.context.parameters, segment)?;
        let expected = segment.ciphertext_length();
        if actual == expected {
            Ok(())
        } else {
            Err(
                Error::InvalidCiphertextLength {
                    actual,
                    required: LengthRequirement::Exactly(expected),
                },
            )
        }
    }
}

/// The error, if any, of a segment of `actual` bytes whose prefix declared
/// `expected`.
pub open spec fn framed_length_error(actual: int, expected: int) -> Option<Error> {
    if actual != expected {
        Some(
            Error::InvalidCiphertextLength {
                actual: actual as usize,
                required: LengthRequirement::Exactly(expected as usize),
            },
        )
    } else {
        None
    }
}

/// Shareable message context for parallel/concurrent random-access decryption.
///
/// Create this by consuming a [`DecryptionState`] with
/// [`DecryptionState::into_shared`], then create one [`DecryptionState`] for
/// each independently executing task/thread.
pub struct SharedDecryptionContext {
    context: Arc<MessageContext>,
}

impl Clone for SharedDecryptionContext {
    fn clone(&self) -> (copy: Self)
        ensures
            copy == *self,
    {
        SharedDecryptionContext { context: share(&self.context) }
    }
}

impl SharedDecryptionContext {
    /// What the states of this context decrypt segments with.
    pub closed spec fn session(&self) -> Session {
        self.context.session()
    }

    pub closed spec fn spec_provider(&self) -> Provider {
        self.context.provider
    }

    /// The parameters are valid.
    pub closed spec fn wf(&self) -> bool {
        self.context.parameters.wf()
    }

    /// Returns the provider retained by this context.
    #[verifier::when_used_as_spec(spec_provider)]
    pub fn provider(&self) -> (provider: Provider)
        ensures
            provider == self.provider(),
    {
        self.context.provider
    }

    /// Returns this context's parameter set.
    pub fn parameters(&self) -> (parameters: Parameters)
        ensures
            parameters == self.session().parameters,
    {
        self.context.parameters
    }

    /// Creates an independent decryption state with its own key cache.
    pub fn fork(&self) -> (state: DecryptionState)
        requires
            self.wf(),
        ensures
            state.wf(),
            state.session() == self.session(),
            state.provider() == self.provider(),
    {
        DecryptionState { context: share(&self.context), keys: KeyCache::empty() }
    }
}

/// Initializes a FLOE encryption state.
///
/// # Errors
///
/// Returns an error if a provider is required or the selected provider cannot
/// generate the FLOE IV.
pub fn start_encryption(key: &Key, aad: &[u8], parameters: Parameters) -> (result: Result<
    (EncryptionState, Header),
    Error,
>)
    ensures
        match key.resolved() {
            None => result is Err && result->Err_0 == Error::ProviderSelectionRequired,
            Some(provider) => match result {
                Ok((state, header)) => started(
                    key@,
                    aad@,
                    parameters,
                    header_iv(header@),
                    provider,
                    provider is RustCrypto,
                    state,
                    header,
                ),
                Err(error) => error == Error::RngFailure,
            },
        },
{
    let provider = key.provider()?;
    let mut rng = ProviderRng::new(provider);
    let mut floe_iv = [0u8; FLOE_IV_LENGTH];
    rng.fill(&mut floe_iv)?;
    let (state, header) = begin_encryption(provider, rng, key, aad, parameters, floe_iv)?;
    assert(header_iv(header@) =~= floe_iv@);
    Ok((state, header))
}

/// `state` and `header` start the message of a key, an IV, and associated
/// data. The state has no nonces yet, and a generator that is seeded or not.
pub open spec fn started(
    key: Seq<u8>,
    aad: Seq<u8>,
    parameters: Parameters,
    iv: Seq<u8>,
    provider: Provider,
    seeded: bool,
    state: EncryptionState,
    header: Header,
) -> bool {
    &&& state.wf()
    &&& state.provider() == provider
    &&& state.nonces().is_spent()
    &&& state.nonces().seeded == seeded
    &&& state.session() == session(key, parameters, iv, aad)
    &&& header@ == crate::model::header(key, parameters, iv, aad)
    &&& parameters.wf()
}

/// Initializes a FLOE encryption state with a given IV.
///
/// The caller must never give one IV twice for one key. Prefer
/// [`start_encryption`], which draws a random IV.
///
/// # Errors
///
/// Returns [`Error::ProviderSelectionRequired`] if a provider is required.
pub fn start_encryption_with_iv(
    key: &Key,
    aad: &[u8],
    parameters: Parameters,
    floe_iv: [u8; FLOE_IV_LENGTH],
) -> (result: Result<(EncryptionState, Header), Error>)
    ensures
        match key.resolved() {
            None => result is Err && result->Err_0 == Error::ProviderSelectionRequired,
            Some(provider) => result is Ok && started(
                key@,
                aad@,
                parameters,
                floe_iv@,
                provider,
                false,
                result->Ok_0.0,
                result->Ok_0.1,
            ),
        },
{
    let provider = key.provider()?;
    begin_encryption(provider, ProviderRng::new(provider), key, aad, parameters, floe_iv)
}

fn begin_encryption(
    provider: Provider,
    rng: ProviderRng,
    key: &Key,
    aad: &[u8],
    parameters: Parameters,
    floe_iv: [u8; FLOE_IV_LENGTH],
) -> (result: Result<(EncryptionState, Header), Error>)
    requires
        rng.provider() == provider,
    ensures
        result is Ok,
        started(
            key@,
            aad@,
            parameters,
            floe_iv@,
            provider,
            rng.is_seeded(),
            result->Ok_0.0,
            result->Ok_0.1,
        ),
{
    proof {
        use_type_invariant(&parameters);
    }
    let mut tag = derive_header_tag(provider, key, parameters, &floe_iv, aad)?;
    let message_key = derive_message_key(provider, key, parameters, &floe_iv, aad)?;
    let encoded = parameters.encode();
    let header = Header::from_fields(&encoded, &floe_iv, &tag);
    zeroize(&mut tag);
    let context = Arc::new(
        MessageContext::new(provider, parameters, message_key, floe_iv, aad),
    );
    let keys = KeyCache::new(&context)?;
    let nonces = NonceGenerator::new(rng);
    Ok((EncryptionState { context, keys, nonces }, header))
}

/// Starts decryption using the provided parameter set and header.
///
/// # Errors
///
/// Returns an error if the encoded parameters or header is invalid,
/// if the provided parameters don't match the parameters in the header,
/// or if an explicit provider is required.
pub fn start_decryption(key: &Key, aad: &[u8], parameters: Parameters, header: &Header) -> (result:
    Result<DecryptionState, Error>)
    ensures
        match start_error(*key, aad@, parameters, header@) {
            Some(error) => result is Err && result->Err_0 == error,
            None => result is Ok && result->Ok_0.wf() && result->Ok_0.provider()
                == key.resolved()->0 && result->Ok_0.session() == session(
                key@,
                parameters,
                header_iv(header@),
                aad@,
            ) && parameters.wf(),
        },
{
    let provider = key.provider()?;
    start_decryption_with_provider(key, provider, aad, parameters, header)
}

/// The error, if any, of starting decryption with a parameter set.
pub open spec fn start_error(
    key: Key,
    aad: Seq<u8>,
    parameters: Parameters,
    header: Seq<u8>,
) -> Option<Error> {
    if key.resolved() is None {
        Some(Error::ProviderSelectionRequired)
    } else {
        header_error(key@, parameters, aad, header)
    }
}

/// The error, if any, of starting decryption with the parameter set that the
/// header declares.
pub open spec fn start_inferred_error(key: Key, aad: Seq<u8>, header: Seq<u8>) -> Option<Error> {
    if key.resolved() is None {
        Some(Error::ProviderSelectionRequired)
    } else {
        match Parameters::decoding(header.take(ENCODED_PARAMETERS_LENGTH as int)) {
            None => Some(Error::InvalidHeaderParameters),
            Some(parameters) => header_error(key@, parameters, aad, header),
        }
    }
}

/// The provider does not matter: keys of the same bytes, bound to whatever
/// providers, accept the same headers, and give the same session.
pub proof fn lemma_providers_agree(
    key: Key,
    other: Key,
    aad: Seq<u8>,
    parameters: Parameters,
    header: Seq<u8>,
)
    requires
        key@ == other@,
        key.resolved() is Some,
        other.resolved() is Some,
    ensures
        start_error(key, aad, parameters, header) == start_error(other, aad, parameters, header),
        start_inferred_error(key, aad, header) == start_inferred_error(other, aad, header),
        session(key@, parameters, header_iv(header), aad) == session(
            other@,
            parameters,
            header_iv(header),
            aad,
        ),
{
}

fn start_decryption_with_provider(
    key: &Key,
    provider: Provider,
    aad: &[u8],
    parameters: Parameters,
    header: &Header,
) -> (result: Result<DecryptionState, Error>)
    ensures
        match header_error(key@, parameters, aad@, header@) {
            Some(error) => result is Err && result->Err_0 == error,
            None => result is Ok && result->Ok_0.wf() && result->Ok_0.provider() == provider
                && result->Ok_0.session() == session(
                key@,
                parameters,
                header_iv(header@),
                aad@,
            ) && parameters.wf(),
        },
{
    proof {
        use_type_invariant(&parameters);
    }
    let encoded = parameters.encode();
    if !bytes_equal(&header.encoded_parameters(), &encoded) {
        return Err(Error::InvalidHeaderParameters);
    }
    let floe_iv = header.floe_iv();
    let mut expected_tag = derive_header_tag(provider, key, parameters, &floe_iv, aad)?;
    let tag = header.tag();
    let tag_matches = constant_time_equal(&expected_tag, &tag);
    proof {
        let rebuilt = crate::model::header(key@, parameters, floe_iv@, aad@);
        assert(header@ =~= encoded@ + floe_iv@ + tag@);
        assert(rebuilt.skip(ENCODED_PARAMETERS_LENGTH + FLOE_IV_LENGTH) =~= expected_tag@);
        assert((encoded@ + floe_iv@ + tag@).skip(ENCODED_PARAMETERS_LENGTH + FLOE_IV_LENGTH)
            =~= tag@);
    }
    zeroize(&mut expected_tag);
    if !tag_matches {
        return Err(Error::InvalidHeaderTag);
    }
    let message_key = derive_message_key(provider, key, parameters, &floe_iv, aad)?;
    let context = Arc::new(
        MessageContext::new(provider, parameters, message_key, floe_iv, aad),
    );
    let keys = KeyCache::new(&context)?;
    Ok(DecryptionState { context, keys })
}

/// Starts decryption using the parameter set in `header`.
///
/// Use [`start_decryption`] to provide the parameters explicitly.
///
/// # Errors
///
/// Returns an error if the parameters or header are invalid, or
/// if an explicit provider is required.
pub fn start_decryption_inferred(key: &Key, aad: &[u8], header: &Header) -> (result: Result<
    DecryptionState,
    Error,
>)
    ensures
        match start_inferred_error(*key, aad@, header@) {
            Some(error) => result is Err && result->Err_0 == error,
            None => {
                let parameters = Parameters::decoding(
                    header@.take(ENCODED_PARAMETERS_LENGTH as int),
                )->0;
                &&& result is Ok
                &&& result->Ok_0.wf()
                &&& result->Ok_0.provider() == key.resolved()->0
                &&& result->Ok_0.session() == session(
                    key@,
                    parameters,
                    header_iv(header@),
                    aad@,
                )
                &&& parameters.wf()
            },
        },
{
    let provider = key.provider()?;
    let parameters = header.unverified_parameters()?;
    start_decryption_with_provider(key, provider, aad, parameters, header)
}

} // verus!
