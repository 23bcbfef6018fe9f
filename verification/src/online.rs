//! Misuse-resistant sequential (online) segment processing.
//!
//! [`Encryptor`] and [`Decryptor`] implement in-order bounded memory
//! segment processing.
//!
//! The free functions [`encrypt`] and [`decrypt`] provide a one-shot interface
//! for encrypting and decrypting whole messages.
//!
//! To drive a [`Decryptor`] from a raw byte stream, read the
//! [`SEGMENT_PREFIX_LENGTH`]-byte prefix, size the segment with
//! [`SegmentFraming::decode`](crate::SegmentFraming::decode), then pass the
//! complete segment to [`Decryptor::decrypt_segment`].

use crate::bytes::{array_at, be32, from_be32};
use crate::counter::SegmentCounter;
use crate::error::{Error, LengthRequirement};
use crate::header::Header;
use crate::key::Key;
use crate::layout::{prefix_value, SegmentFraming};
use crate::model::{
    header, header_iv, output_error, plaintext_error, segment_nonce, session, Session,
};
use crate::parameters::{
    Parameters, SegmentKind, AEAD_IV_LENGTH, ENCODED_PARAMETERS_LENGTH, SEGMENT_OVERHEAD,
    SEGMENT_PREFIX_LENGTH,
};
use crate::provider::Provider;
use crate::state::{
    ciphertext_buffer_error, decrypted_in_place, encrypted, encrypted_in_place, encrypted_into,
    encryption_error, first_error, framed_length_error, nonces_used, opened_into,
    plaintext_buffer_error, storage_with,
    start_decryption, start_decryption_inferred, start_encryption, start_error,
    start_inferred_error, DecryptionState, EncryptionState, NonceSupply,
};
use vstd::prelude::*;

pub mod runs;

pub use crate::buffer::SegmentBuffer;
pub use crate::message::{decrypt, decrypt_with_parameters, encrypt};

verus! {

/// Misuse-resistant sequential FLOE encryptor.
///
/// Encrypt full non-final segments with [`Self::encrypt_non_final_segment`],
/// then consume the encryptor with [`Self::encrypt_final_segment`]. Consuming
/// finalization makes it impossible to use the state after the final segment.
pub struct Encryptor {
    state: EncryptionState,
    header: Header,
    counter: SegmentCounter,
}

/// Error returned when final-segment encryption fails.
///
/// The original encryptor remains recoverable, so a caller can correct a
/// deterministic input or buffer error and retry without abandoning the
/// message and its already-emitted header.
pub struct FinalEncryptError {
    encryptor: Box<Encryptor>,
    error: Error,
}

impl FinalEncryptError {
    pub closed spec fn spec_error(&self) -> Error {
        self.error
    }

    /// The encryptor that is kept for another try.
    pub closed spec fn kept(&self) -> Encryptor {
        *self.encryptor
    }

    /// Returns the error that prevented final-segment encryption.
    pub fn error(&self) -> (error: &Error)
        ensures
            *error == self.spec_error(),
    {
        &self.error
    }

    /// Recovers the encryptor.
    pub fn into_encryptor(self) -> (encryptor: Encryptor)
        ensures
            encryptor == self.kept(),
    {
        *self.encryptor
    }

    /// Returns the underlying error and drops the recovered encryptor.
    pub fn into_error(self) -> (error: Error)
        ensures
            error == self.spec_error(),
    {
        self.error
    }

    /// Separates the error and recovered encryptor.
    pub fn into_parts(self) -> (parts: (Error, Encryptor))
        ensures
            parts.0 == self.spec_error(),
            parts.1 == self.kept(),
    {
        (self.error, *self.encryptor)
    }

    /// Returns the message that describes this error.
    pub fn to_string(&self) -> (text: String)
        ensures
            text@ == "failed to encrypt final FLOE segment: "@ + self.spec_error().text(),
    {
        let mut text = String::new();
        text.append("failed to encrypt final FLOE segment: ");
        text.append(self.error.to_string().as_str());
        assert(text@ =~= "failed to encrypt final FLOE segment: "@ + self.spec_error().text());
        text
    }
}

impl Encryptor {
    /// What this encryptor encrypts segments with.
    pub closed spec fn session(&self) -> Session {
        self.state.session()
    }

    pub closed spec fn spec_provider(&self) -> Provider {
        self.state.provider()
    }

    pub closed spec fn spec_header(&self) -> Header {
        self.header
    }

    /// The position of the next segment.
    pub closed spec fn counter(&self) -> SegmentCounter {
        self.counter
    }

    /// Where this encryptor takes its nonces from.
    pub closed spec fn nonces(&self) -> NonceSupply {
        self.state.nonces()
    }

    /// The message is open, and the next position is one it can have.
    pub closed spec fn wf(&self) -> bool {
        self.state.wf() && self.counter.wf() && !self.counter.closed
            && self.state.session().parameters.wf()
    }

    /// The next position of an encryptor in use is one that its message can
    /// have, its message is open, and its supply of nonces is that of its
    /// provider.
    pub proof fn lemma_next_position(&self)
        requires
            self.wf(),
        ensures
            self.counter().wf(),
            !self.counter().closed,
            self.session().parameters.wf(),
            self.nonces().wf(),
            self.nonces().provider == self.provider(),
    {
        self.state.lemma_nonces();
    }

    /// Both encryptors are at the same point of the same message.
    pub open spec fn agrees(&self, other: &Encryptor) -> bool {
        &&& self.wf() == other.wf()
        &&& self.session() == other.session()
        &&& self.provider() == other.provider()
        &&& self.spec_header() == other.spec_header()
        &&& self.counter() == other.counter()
        &&& self.nonces().agrees(other.nonces())
    }

    /// Starts online encryption and creates a fresh authenticated header.
    ///
    /// # Errors
    ///
    /// Returns an error if a provider is required, or for random-generation
    /// failure.
    pub fn new(key: &Key, aad: &[u8], parameters: Parameters) -> (result: Result<Self, Error>)
        ensures
            match key.resolved() {
                None => result is Err && result->Err_0 == Error::ProviderSelectionRequired,
                Some(provider) => match result {
                    Ok(encryptor) => {
                        let iv = header_iv(encryptor.spec_header()@);
                        &&& encryptor.wf()
                        &&& encryptor.provider() == provider
                        &&& encryptor.counter() == SegmentCounter::start()
                        &&& encryptor.nonces().is_spent()
                        &&& encryptor.nonces().seeded == (provider is RustCrypto)
                        &&& encryptor.session() == session(key@, parameters, iv, aad@)
                        &&& encryptor.spec_header()@ == header(key@, parameters, iv, aad@)
                        &&& parameters.wf()
                    },
                    Err(error) => error == Error::RngFailure,
                },
            },
    {
        let (state, header) = start_encryption(key, aad, parameters)?;
        Ok(Self { state, header, counter: SegmentCounter::new() })
    }

    /// Returns the authenticated header that must precede the encrypted body.
    pub fn header(&self) -> (header: &Header)
        ensures
            *header == self.spec_header(),
    {
        &self.header
    }

    /// Returns the provider used by this encryptor.
    #[verifier::when_used_as_spec(spec_provider)]
    pub fn provider(&self) -> (provider: Provider)
        ensures
            provider == self.provider(),
    {
        self.state.provider()
    }

    /// Returns this encryptor's parameter set.
    pub fn parameters(&self) -> (parameters: Parameters)
        ensures
            parameters == self.session().parameters,
    {
        self.state.parameters()
    }

    /// Returns the next segment position.
    pub fn next_position(&self) -> (position: u64)
        ensures
            position == self.counter().next,
    {
        self.counter.next
    }

    /// The encryptor after trying to encrypt a non-final segment: it moves on
    /// exactly where that succeeded.
    pub open spec fn moved_on(before: Encryptor, after: Encryptor, succeeded: bool) -> bool {
        &&& after.wf()
        &&& after.session() == before.session()
        &&& after.provider() == before.provider()
        &&& after.spec_header() == before.spec_header()
        &&& after.counter() == if succeeded {
            before.counter().advanced(SegmentKind::NonFinal)
        } else {
            before.counter()
        }
    }

    /// `nonce` is the first of the nonces that are drawn, if there are any.
    pub open spec fn next_nonce(&self, nonce: Seq<u8>) -> bool {
        let supply = self.nonces();
        !supply.is_spent() ==> nonce == supply.batch.subrange(
            supply.used,
            supply.used + AEAD_IV_LENGTH,
        )
    }

    /// What a failure to encrypt the final segment keeps: the encryptor as it
    /// was. It fails for want of random bytes only where no nonce is left and
    /// drawing more can fail.
    pub open spec fn kept_by(&self, failure: FinalEncryptError) -> bool {
        &&& failure.kept().agrees(self)
        &&& if failure.spec_error() == Error::RngFailure {
            !self.nonces().is_sure()
        } else {
            failure.kept().nonces() == self.nonces()
        }
    }

    /// The outcome of encrypting `plaintext` as the next segment.
    pub open spec fn next_encrypted(
        &self,
        kind: SegmentKind,
        plaintext: Seq<u8>,
        result: Result<Seq<u8>, Error>,
    ) -> bool {
        encrypted(
            self.session(),
            self.counter().next,
            kind,
            plaintext,
            first_error(
                self.counter().error(kind),
                plaintext_error(self.session().parameters, kind, plaintext.len() as int),
            ),
            result,
        )
    }

    /// Encrypts one full, non-final plaintext segment.
    ///
    /// # Errors
    ///
    /// Returns an error if the segment limit is reached, the plaintext does not
    /// have the exact full-segment length, or random generation fails.
    pub fn encrypt_non_final_segment(&mut self, plaintext: &[u8]) -> (result: Result<
        Vec<u8>,
        Error,
    >)
        requires
            old(self).wf(),
        ensures
            Self::moved_on(*old(self), *final(self), result is Ok),
            nonces_used(
                old(self).nonces(),
                final(self).nonces(),
                first_error(
                    old(self).counter().error(SegmentKind::NonFinal),
                    plaintext_error(
                        old(self).session().parameters,
                        SegmentKind::NonFinal,
                        plaintext@.len() as int,
                    ),
                ),
                match result {
                    Ok(bytes) => Ok(bytes@),
                    Err(error) => Err(error),
                },
            ),
            old(self).next_encrypted(
                SegmentKind::NonFinal,
                plaintext@,
                match result {
                    Ok(bytes) => Ok(bytes@),
                    Err(error) => Err(error),
                },
            ),
    {
        let position = self.counter.position_for(SegmentKind::NonFinal)?;
        let encrypted = self.state.encrypt_segment_at(
            plaintext,
            position,
            SegmentKind::NonFinal,
        )?;
        self.counter.complete(SegmentKind::NonFinal);
        Ok(encrypted)
    }

    /// Encrypts one full, non-final segment into `output`.
    ///
    /// # Errors
    ///
    /// Returns the same errors as [`Self::encrypt_non_final_segment`], plus
    /// [`Error::OutputTooSmall`] when necessary.
    pub fn encrypt_non_final_segment_into(&mut self, plaintext: &[u8], output: &mut [u8]) -> (
    result: Result<usize, Error>)
        requires
            old(self).wf(),
        ensures
            Self::moved_on(*old(self), *final(self), result is Ok),
            nonces_used(
                old(self).nonces(),
                final(self).nonces(),
                first_error(
                    old(self).counter().error(SegmentKind::NonFinal),
                    encryption_error(
                        old(self).session().parameters,
                        SegmentKind::NonFinal,
                        plaintext@.len() as int,
                        old(output)@.len() as int,
                    ),
                ),
                match result {
                    Ok(written) => Ok(final(output)@.take(written as int)),
                    Err(error) => Err(error),
                },
            ),
            encrypted_into(
                old(self).session(),
                old(self).counter().next,
                SegmentKind::NonFinal,
                plaintext@,
                first_error(
                    old(self).counter().error(SegmentKind::NonFinal),
                    encryption_error(
                        old(self).session().parameters,
                        SegmentKind::NonFinal,
                        plaintext@.len() as int,
                        old(output)@.len() as int,
                    ),
                ),
                final(self).nonces().last(),
                old(output)@,
                final(output)@,
                result,
            ),
    {
        let position = self.counter.position_for(SegmentKind::NonFinal)?;
        let written = self.state.encrypt_segment_into_at(
            plaintext,
            position,
            SegmentKind::NonFinal,
            output,
        )?;
        self.counter.complete(SegmentKind::NonFinal);
        Ok(written)
    }

    /// Encrypts one full, non-final payload prepared in `buffer`.
    ///
    /// # Errors
    ///
    /// Returns an error for invalid buffer state or parameters, segment-limit
    /// exhaustion, or random-generation failure.
    pub fn encrypt_non_final_segment_in_place<'a>(&mut self, buffer: &'a mut SegmentBuffer) -> (
    result: Result<&'a [u8], Error>)
        requires
            old(self).wf(),
            old(buffer).wf(),
        ensures
            Self::moved_on(*old(self), *final(self), result is Ok),
            nonces_used(
                old(self).nonces(),
                final(self).nonces(),
                first_error(
                    old(self).counter().error(SegmentKind::NonFinal),
                    first_error(
                        plaintext_buffer_error(old(self).session().parameters, *old(buffer)),
                        plaintext_error(
                            old(self).session().parameters,
                            SegmentKind::NonFinal,
                            old(buffer).plaintext_view()->0.len() as int,
                        ),
                    ),
                ),
                match result {
                    Ok(bytes) => Ok(bytes@),
                    Err(error) => Err(error),
                },
            ),
            buffer_encrypted(
                old(self).session(),
                old(self).counter(),
                SegmentKind::NonFinal,
                final(self).nonces().last(),
                *old(buffer),
                *final(buffer),
                result,
            ),
    {
        let position = self.counter.position_for(SegmentKind::NonFinal)?;
        let encrypted = self.state.encrypt_segment_in_place_at(
            buffer,
            position,
            SegmentKind::NonFinal,
        )?;
        self.counter.complete(SegmentKind::NonFinal);
        Ok(encrypted)
    }

    /// Encrypts the final plaintext segment and consumes this encryptor.
    ///
    /// # Errors
    ///
    /// Returns an error when the final payload is too large or random
    /// generation fails. The returned [`FinalEncryptError`] preserves this
    /// encryptor for correction or retry.
    pub fn encrypt_final_segment(self, plaintext: &[u8]) -> (result: Result<
        Vec<u8>,
        FinalEncryptError,
    >)
        requires
            self.wf(),
        ensures
            result matches Err(failure) ==> self.kept_by(failure),
            result matches Ok(bytes) ==> self.next_nonce(segment_nonce(bytes@)),
            encrypted(
                self.session(),
                self.counter().next,
                SegmentKind::Final,
                plaintext@,
                plaintext_error(
                    self.session().parameters,
                    SegmentKind::Final,
                    plaintext@.len() as int,
                ),
                match result {
                    Ok(bytes) => Ok(bytes@),
                    Err(failure) => Err(failure.spec_error()),
                },
            ),
            self.next_encrypted(
                SegmentKind::Final,
                plaintext@,
                match result {
                    Ok(bytes) => Ok(bytes@),
                    Err(failure) => Err(failure.spec_error()),
                },
            ),
    {
        let mut this = self;
        let result = match this.counter.position_for(SegmentKind::Final) {
            Ok(position) => this.state.encrypt_segment_at(plaintext, position, SegmentKind::Final),
            Err(error) => Err(error),
        };
        match result {
            Ok(encrypted) => Ok(encrypted),
            Err(error) => Err(FinalEncryptError { encryptor: Box::new(this), error }),
        }
    }

    /// Encrypts the final plaintext segment into `output` and consumes this
    /// encryptor.
    ///
    /// # Errors
    ///
    /// Returns the same errors as [`Self::encrypt_final_segment`], plus
    /// [`Error::OutputTooSmall`] when necessary. The returned
    /// [`FinalEncryptError`] preserves this encryptor.
    pub fn encrypt_final_segment_into(self, plaintext: &[u8], output: &mut [u8]) -> (result: Result<
        usize,
        FinalEncryptError,
    >)
        requires
            self.wf(),
        ensures
            result matches Err(failure) ==> self.kept_by(failure),
            result matches Ok(written) ==> self.next_nonce(
                segment_nonce(final(output)@.take(written as int)),
            ),
            encrypted_into(
                self.session(),
                self.counter().next,
                SegmentKind::Final,
                plaintext@,
                encryption_error(
                    self.session().parameters,
                    SegmentKind::Final,
                    plaintext@.len() as int,
                    old(output)@.len() as int,
                ),
                segment_nonce(final(output)@),
                old(output)@,
                final(output)@,
                match result {
                    Ok(written) => Ok(written),
                    Err(failure) => Err(failure.spec_error()),
                },
            ),
    {
        let mut this = self;
        let result = match this.counter.position_for(SegmentKind::Final) {
            Ok(position) => this.state.encrypt_segment_into_at(
                plaintext,
                position,
                SegmentKind::Final,
                output,
            ),
            Err(error) => Err(error),
        };
        match result {
            Ok(written) => Ok(written),
            Err(error) => Err(FinalEncryptError { encryptor: Box::new(this), error }),
        }
    }

    /// Encrypts the final payload prepared in `buffer` and consumes this
    /// encryptor.
    ///
    /// # Errors
    ///
    /// Returns an error for invalid buffer state or parameters, or
    /// random-generation failure. The returned [`FinalEncryptError`]
    /// preserves this encryptor.
    pub fn encrypt_final_segment_in_place<'a>(self, buffer: &'a mut SegmentBuffer) -> (result:
        Result<&'a [u8], FinalEncryptError>)
        requires
            self.wf(),
            old(buffer).wf(),
        ensures
            result matches Err(failure) ==> self.kept_by(failure),
            result matches Ok(bytes) ==> self.next_nonce(segment_nonce(bytes@)),
            buffer_encrypted(
                self.session(),
                self.counter(),
                SegmentKind::Final,
                segment_nonce(final(buffer).raw()),
                *old(buffer),
                *final(buffer),
                match result {
                    Ok(bytes) => Ok(bytes),
                    Err(failure) => Err(failure.spec_error()),
                },
            ),
    {
        let mut this = self;
        let result = match this.counter.position_for(SegmentKind::Final) {
            Ok(position) => this.state.encrypt_segment_in_place_at(
                buffer,
                position,
                SegmentKind::Final,
            ),
            Err(error) => Err(error),
        };
        match result {
            Ok(encrypted) => Ok(encrypted),
            Err(error) => Err(FinalEncryptError { encryptor: Box::new(this), error }),
        }
    }
}

/// The outcome of encrypting the next segment of a message in a buffer.
pub open spec fn buffer_encrypted(
    session: Session,
    counter: SegmentCounter,
    kind: SegmentKind,
    nonce: Seq<u8>,
    before: SegmentBuffer,
    after: SegmentBuffer,
    result: Result<&[u8], Error>,
) -> bool {
    let early = first_error(
        counter.error(kind),
        plaintext_buffer_error(session.parameters, before),
    );
    let size = plaintext_error(
        session.parameters,
        kind,
        before.plaintext_view()->0.len() as int,
    );
    if early is None && size is Some {
        &&& result == Err::<&[u8], Error>(size->0)
        &&& after.wf()
        &&& after.parameters() == before.parameters()
        &&& after.state() is Empty
        &&& after.raw() == before.raw()
    } else {
        encrypted_in_place(session, counter.next, kind, early, nonce, before, after, result)
    }
}

/// The error, if any, of the prefix of a segment.
pub open spec fn prefix_error(parameters: Parameters, segment: Seq<u8>) -> Option<Error> {
    if segment.len() < SEGMENT_PREFIX_LENGTH {
        Some(
            Error::InvalidCiphertextLength {
                actual: segment.len() as usize,
                required: LengthRequirement::Between {
                    minimum: SEGMENT_PREFIX_LENGTH,
                    maximum: parameters.segment_length() as usize,
                },
            },
        )
    } else {
        SegmentFraming::error(parameters, segment_prefix_value(segment))
    }
}

/// The number that the prefix of a segment encodes.
pub open spec fn segment_prefix_value(segment: Seq<u8>) -> u32 {
    from_be32(segment.take(SEGMENT_PREFIX_LENGTH as int))
}

/// The kind that the prefix of a segment declares.
pub open spec fn segment_kind(segment: Seq<u8>) -> SegmentKind {
    SegmentFraming::declared_kind(segment_prefix_value(segment))
}

/// Misuse-resistant sequential FLOE decryptor.
///
/// [`Self::decrypt_segment`] reads the authenticated final/non-final choice
/// from each segment prefix. After the input source ends, consume the decryptor
/// with [`Self::finish`] to reject truncation.
pub struct Decryptor {
    state: DecryptionState,
    counter: SegmentCounter,
}

impl Decryptor {
    /// What this decryptor decrypts segments with.
    pub closed spec fn session(&self) -> Session {
        self.state.session()
    }

    pub closed spec fn spec_provider(&self) -> Provider {
        self.state.provider()
    }

    /// The position of the next segment, and whether the final one was met.
    pub closed spec fn counter(&self) -> SegmentCounter {
        self.counter
    }

    /// The next position is one that a message can have.
    pub closed spec fn wf(&self) -> bool {
        self.state.wf() && self.counter.wf() && self.state.session().parameters.wf()
    }

    /// The next position of a decryptor is one that its message can have.
    pub proof fn lemma_next_position(&self)
        requires
            self.wf(),
        ensures
            self.counter().wf(),
            self.session().parameters.wf(),
    {
    }

    /// Starts online decryption using the authenticated parameters in `header`.
    ///
    /// When application policy requires a specific profile, check
    /// [`Self::parameters`] after construction; the parameter set is
    /// authenticated before any payload is produced. The whole-message
    /// [`crate::decrypt_with_parameters`] helper performs that policy check for
    /// complete slices.
    ///
    /// # Errors
    ///
    /// Returns an error when a provider is required, or the encoded parameters
    /// or authenticated header are invalid.
    pub fn new(key: &Key, aad: &[u8], header: &Header) -> (result: Result<Self, Error>)
        ensures
            match start_inferred_error(*key, aad@, header@) {
                Some(error) => result is Err && result->Err_0 == error,
                None => result is Ok && result->Ok_0.started(
                    *key,
                    aad@,
                    Parameters::decoding(header@.take(ENCODED_PARAMETERS_LENGTH as int))->0,
                    header@,
                ),
            },
    {
        let state = start_decryption_inferred(key, aad, header)?;
        Ok(Self { state, counter: SegmentCounter::new() })
    }

    /// This decryptor is at the start of a message.
    pub open spec fn started(
        &self,
        key: Key,
        aad: Seq<u8>,
        parameters: Parameters,
        header: Seq<u8>,
    ) -> bool {
        &&& self.wf()
        &&& key.resolved() == Some(self.provider())
        &&& self.counter() == SegmentCounter::start()
        &&& self.session() == session(key@, parameters, header_iv(header), aad)
        &&& parameters.wf()
    }

    pub(crate) fn new_with_parameters(
        key: &Key,
        aad: &[u8],
        parameters: Parameters,
        header: &Header,
    ) -> (result: Result<Self, Error>)
        ensures
            match start_error(*key, aad@, parameters, header@) {
                Some(error) => result is Err && result->Err_0 == error,
                None => result is Ok && result->Ok_0.started(*key, aad@, parameters, header@),
            },
    {
        let state = start_decryption(key, aad, parameters, header)?;
        Ok(Self { state, counter: SegmentCounter::new() })
    }

    /// Returns the provider used by this decryptor.
    #[verifier::when_used_as_spec(spec_provider)]
    pub fn provider(&self) -> (provider: Provider)
        ensures
            provider == self.provider(),
    {
        self.state.provider()
    }

    /// Returns this decryptor's authenticated parameter set.
    pub fn parameters(&self) -> (parameters: Parameters)
        ensures
            parameters == self.session().parameters,
    {
        self.state.parameters()
    }

    /// Returns the next segment position.
    pub fn next_position(&self) -> (position: u64)
        ensures
            position == self.counter().next,
    {
        self.counter.next
    }

    /// Returns whether an authenticated final segment has been processed.
    pub fn is_finished(&self) -> (finished: bool)
        ensures
            finished == self.counter().closed,
    {
        self.counter.closed
    }

    /// The decryptor after trying to decrypt a segment of `kind`: it moves on
    /// exactly where that succeeded.
    pub open spec fn moved_on(
        before: Decryptor,
        after: Decryptor,
        kind: SegmentKind,
        succeeded: bool,
    ) -> bool {
        &&& after.wf()
        &&& after.session() == before.session()
        &&& after.provider() == before.provider()
        &&& after.counter() == if succeeded {
            before.counter().advanced(kind)
        } else {
            before.counter()
        }
    }

    /// What decrypting `segment` as the next one gives.
    pub open spec fn next_decrypted(&self, segment: Seq<u8>) -> Result<Seq<u8>, Error> {
        match first_error(
            prefix_error(self.session().parameters, segment),
            self.counter().error(segment_kind(segment)),
        ) {
            Some(error) => Err(error),
            None => self.session().decrypted(self.counter().next, segment_kind(segment), segment),
        }
    }

    /// The outcome of decrypting `segment` as the next one to the start of an
    /// output.
    pub open spec fn next_decrypted_into(
        &self,
        segment: Seq<u8>,
        before: Seq<u8>,
        after: Seq<u8>,
        result: Result<usize, Error>,
    ) -> bool {
        let parameters = self.session().parameters;
        let kind = segment_kind(segment);
        let length = SegmentFraming::declared_length(parameters, segment_prefix_value(segment));
        opened_into(
            first_error(
                first_error(prefix_error(parameters, segment), self.counter().error(kind)),
                first_error(
                    framed_length_error(segment.len() as int, length),
                    output_error(before.len() as int, length - SEGMENT_OVERHEAD),
                ),
            ),
            self.session().authenticated(self.counter().next, kind, segment),
            length - SEGMENT_OVERHEAD,
            before,
            after,
            result,
        )
    }

    /// Authenticates and decrypts the next segment.
    ///
    /// The final/non-final operation is selected from the segment prefix and
    /// authenticated by AES-GCM. Use [`Self::is_finished`] to detect the final
    /// segment while processing a sequence.
    ///
    /// # Errors
    ///
    /// Returns an error for a closed state, invalid framing, segment-limit
    /// exhaustion, or authentication failure.
    pub fn decrypt_segment(&mut self, ciphertext_segment: &[u8]) -> (result: Result<Vec<u8>, Error>)
        requires
            old(self).wf(),
        ensures
            Self::moved_on(
                *old(self),
                *final(self),
                segment_kind(ciphertext_segment@),
                result is Ok,
            ),
            (match result {
                Ok(plaintext) => Ok(plaintext@),
                Err(error) => Err(error),
            }) == old(self).next_decrypted(ciphertext_segment@),
    {
        let framing = self.framing(ciphertext_segment)?;
        let kind = framing.kind();
        let position = self.counter.position_for(kind)?;
        let plaintext = self.state.decrypt_segment_at(ciphertext_segment, position, kind)?;
        self.counter.complete(kind);
        Ok(plaintext)
    }

    /// Authenticates and decrypts the next segment into `output`.
    ///
    /// # Errors
    ///
    /// Returns the same errors as [`Self::decrypt_segment`], plus
    /// [`Error::OutputTooSmall`] when necessary.
    pub fn decrypt_segment_into(&mut self, ciphertext_segment: &[u8], output: &mut [u8]) -> (result:
        Result<usize, Error>)
        requires
            old(self).wf(),
        ensures
            Self::moved_on(
                *old(self),
                *final(self),
                segment_kind(ciphertext_segment@),
                result is Ok,
            ),
            final(output)@.len() == old(output)@.len(),
            old(self).next_decrypted_into(
                ciphertext_segment@,
                old(output)@,
                final(output)@,
                result,
            ),
    {
        let framing = self.framing(ciphertext_segment)?;
        self.decrypt_segment_into_framed(ciphertext_segment, framing, output)
    }

    pub(crate) fn decrypt_segment_into_framed(
        &mut self,
        ciphertext_segment: &[u8],
        framing: SegmentFraming,
        output: &mut [u8],
    ) -> (result: Result<usize, Error>)
        requires
            old(self).wf(),
            framing.plaintext_length() <= u32::MAX,
        ensures
            Self::moved_on(*old(self), *final(self), framing.kind(), result is Ok),
            final(output)@.len() == old(output)@.len(),
            opened_into(
                first_error(
                    old(self).counter().error(framing.kind()),
                    first_error(
                        framed_length_error(
                            ciphertext_segment@.len() as int,
                            framing.ciphertext_length() as int,
                        ),
                        output_error(old(output)@.len() as int, framing.plaintext_length() as int),
                    ),
                ),
                old(self).session().authenticated(
                    old(self).counter().next,
                    framing.kind(),
                    ciphertext_segment@,
                ),
                framing.plaintext_length() as int,
                old(output)@,
                final(output)@,
                result,
            ),
    {
        let kind = framing.kind();
        let position = self.counter.position_for(kind)?;
        let written = self.state.decrypt_segment_into_at_framed(
            ciphertext_segment,
            position,
            framing,
            output,
        )?;
        self.counter.complete(kind);
        Ok(written)
    }

    /// Authenticates and decrypts the encrypted segment prepared in `buffer`.
    ///
    /// # Errors
    ///
    /// Returns an error for invalid buffer state or parameters, malformed
    /// framing, a closed state, or authentication failure.
    pub fn decrypt_segment_in_place<'a>(&mut self, buffer: &'a mut SegmentBuffer) -> (result:
        Result<&'a mut [u8], Error>)
        requires
            old(self).wf(),
            old(buffer).wf(),
        ensures
            result matches Ok(slice) ==> final(slice)@.len() == slice@.len()
                ==> final(buffer).wf() && final(buffer).parameters() == old(buffer).parameters()
                && final(buffer).plaintext_view() == Some(final(slice)@),
            result matches Ok(slice) ==> final(buffer).raw() == storage_with(
                old(buffer).raw(),
                slice@.len() as int,
                final(slice)@,
            ),
            match old(buffer).ciphertext_view() {
                None => result is Err && result->Err_0 == Error::InvalidBufferState
                    && *final(buffer) == *old(buffer) && *final(self) == *old(self),
                Some(ciphertext) => {
                    &&& Self::moved_on(
                        *old(self),
                        *final(self),
                        segment_kind(ciphertext),
                        result is Ok,
                    )
                    &&& decrypted_in_place(
                        first_error(
                            first_error(
                                prefix_error(old(self).session().parameters, ciphertext),
                                old(self).counter().error(segment_kind(ciphertext)),
                            ),
                            ciphertext_buffer_error(old(self).session().parameters, *old(buffer)),
                        ),
                        old(self).session().decrypted(
                            old(self).counter().next,
                            segment_kind(ciphertext),
                            ciphertext,
                        ),
                        *old(buffer),
                        *final(buffer),
                        match result {
                            Ok(slice) => Ok(slice@),
                            Err(error) => Err(error),
                        },
                    )
                },
            },
    {
        let framing = self.framing(buffer.ciphertext()?)?;
        let kind = framing.kind();
        let position = self.counter.position_for(kind)?;
        let plaintext = self.state.decrypt_segment_in_place_at(buffer, position, kind)?;
        self.counter.complete(kind);
        Ok(plaintext)
    }

    /// Consumes this decryptor and verifies that a final segment was processed.
    ///
    /// # Errors
    ///
    /// Returns [`Error::Truncated`] unless an authenticated final segment was
    /// processed.
    pub fn finish(self) -> (result: Result<(), Error>)
        ensures
            match result {
                Ok(_) => self.counter().closed,
                Err(error) => !self.counter().closed && error == Error::Truncated,
            },
    {
        self.counter.finish()
    }

    fn framing(&self, ciphertext_segment: &[u8]) -> (result: Result<SegmentFraming, Error>)
        requires
            self.wf(),
        ensures
            match result {
                Ok(framing) => {
                    &&& prefix_error(self.session().parameters, ciphertext_segment@) is None
                    &&& framing.declared_by(
                        self.session().parameters,
                        segment_prefix_value(ciphertext_segment@),
                    )
                },
                Err(error) => prefix_error(self.session().parameters, ciphertext_segment@) == Some(
                    error,
                ),
            },
    {
        decode_framing(self.parameters(), ciphertext_segment)
    }
}

/// Decrypting in order undoes encrypting in order: what an encryptor makes of a
/// plaintext, a decryptor of the same session at the same position accepts and
/// turns back into that plaintext, and both then are at the same position.
pub proof fn lemma_online_round_trip(
    encryptor: Encryptor,
    decryptor: Decryptor,
    kind: SegmentKind,
    plaintext: Seq<u8>,
    segment: Seq<u8>,
)
    requires
        encryptor.wf(),
        decryptor.wf(),
        decryptor.session() == encryptor.session(),
        decryptor.counter() == encryptor.counter(),
        encryptor.counter().error(kind) is None,
        plaintext_error(encryptor.session().parameters, kind, plaintext.len() as int) is None,
        encryptor.session().encrypts(encryptor.counter().next, kind, plaintext, segment),
    ensures
        prefix_error(decryptor.session().parameters, segment) is None,
        segment_kind(segment) == kind,
        decryptor.counter().error(segment_kind(segment)) is None,
        decryptor.session().decrypted(
            decryptor.counter().next,
            segment_kind(segment),
            segment,
        ) == Ok::<Seq<u8>, Error>(plaintext),
        decryptor.counter().advanced(segment_kind(segment)) == encryptor.counter().advanced(kind),
{
    let session = encryptor.session();
    let position = encryptor.counter().next;
    encryptor.lemma_next_position();
    session.lemma_segment_round_trip(position, kind, plaintext, segment);
    reveal(Session::encrypts);
    SegmentFraming::lemma_prefix_declares_segment(session.parameters, kind, segment.len() as int);
    assert(segment.take(SEGMENT_PREFIX_LENGTH as int) =~= be32(
        prefix_value(kind, segment.len() as int),
    ));
}

/// Decodes the framing that a segment's prefix declares.
pub(crate) fn decode_framing(parameters: Parameters, ciphertext_segment: &[u8]) -> (result: Result<
    SegmentFraming,
    Error,
>)
    ensures
        match result {
            Ok(framing) => {
                &&& prefix_error(parameters, ciphertext_segment@) is None
                &&& framing.declared_by(parameters, segment_prefix_value(ciphertext_segment@))
            },
            Err(error) => prefix_error(parameters, ciphertext_segment@) == Some(error),
        },
{
    if ciphertext_segment.len() < SEGMENT_PREFIX_LENGTH {
        return Err(
            Error::InvalidCiphertextLength {
                actual: ciphertext_segment.len(),
                required: LengthRequirement::Between {
                    minimum: SEGMENT_PREFIX_LENGTH,
                    maximum: parameters.ciphertext_segment_length(),
                },
            },
        );
    }
    SegmentFraming::decode(parameters, array_at::<SEGMENT_PREFIX_LENGTH>(ciphertext_segment, 0))
}

} // verus!
