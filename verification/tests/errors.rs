use fast_floe::io::{StreamError, StreamErrorKind};
use fast_floe::low_level::{start_encryption, SegmentBuffer, SegmentCounter, AEAD_MAX_SEGMENTS};
use fast_floe::online::{Decryptor, Encryptor};
use fast_floe::{
    decrypt, decrypt_with_parameters, encrypt, Error, Header, Key, LengthRequirement, Parameters,
    Provider, SegmentKind,
};

fn test_key() -> Key {
    Key::from_bytes_with_provider([7; Key::LEN], Provider::COMPILED[0])
}

#[test]
fn every_error_has_its_message() {
    let cases = [
        (
            Error::InvalidKeyLength { actual: 31 },
            "FLOE keys must be 32 bytes, got 31",
        ),
        (Error::InvalidParameters, "FLOE parameter sets do not match"),
        (
            Error::InvalidPlaintextLength {
                actual: 0,
                required: LengthRequirement::Exactly(4064),
            },
            "invalid plaintext segment length 0; required exactly 4064",
        ),
        (
            Error::InvalidPlaintextLength {
                actual: 10,
                required: LengthRequirement::AtMost(9),
            },
            "invalid plaintext segment length 10; required at most 9",
        ),
        (
            Error::InvalidHeaderLength { actual: 73 },
            "FLOE headers must be 74 bytes, got 73",
        ),
        (
            Error::InvalidHeaderParameters,
            "header parameters do not match the selected FLOE parameters",
        ),
        (Error::InvalidHeaderTag, "invalid FLOE header tag"),
        (
            Error::InvalidCiphertextLength {
                actual: 1,
                required: LengthRequirement::Between {
                    minimum: 32,
                    maximum: 4096,
                },
            },
            "invalid ciphertext segment length 1; required between 32 and 4096",
        ),
        (
            Error::InvalidCiphertextLength {
                actual: 1_000_000_007,
                required: LengthRequirement::AtLeast(2),
            },
            "invalid ciphertext segment length 1000000007; required at least 2",
        ),
        (
            Error::InvalidSegmentPrefix,
            "non-final FLOE segment has an invalid prefix",
        ),
        (
            Error::AuthenticationFailed,
            "FLOE segment authentication failed",
        ),
        (Error::Closed, "FLOE online state is already closed"),
        (
            Error::Truncated,
            "FLOE input has no authenticated final segment",
        ),
        (Error::SegmentLimit, "FLOE segment limit exceeded"),
        (
            Error::OutputTooSmall {
                actual: 3,
                required: 5,
            },
            "output buffer is 3 bytes; 5 bytes are required",
        ),
        (
            Error::InvalidBufferState,
            "segment buffer is not prepared for this operation",
        ),
        (
            Error::ProviderSelectionRequired,
            "multiple FLOE providers are compiled (aws-lc-rs, ring, rustcrypto) and none was \
             named; construct keys with Key::from_bytes_with_provider or \
             Key::generate_with_provider",
        ),
        (Error::LengthOverflow, "FLOE length calculation overflowed"),
        (Error::RngFailure, "random backend generation failed"),
        (
            Error::CryptoFailure,
            "cryptographic backend operation failed",
        ),
    ];
    for (error, message) in cases {
        assert_eq!(error.to_string(), message);
    }
}

#[test]
fn every_stream_error_has_its_message_kind_and_source() {
    let cases = [
        (
            StreamError::Poisoned,
            "FLOE stream is poisoned after an earlier error",
            StreamErrorKind::Other,
            None,
        ),
        (
            StreamError::AlreadyFinished,
            "FLOE encrypting writer is already finished",
            StreamErrorKind::BrokenPipe,
            None,
        ),
        (
            StreamError::TrailingData,
            "FLOE ciphertext has data after its final segment",
            StreamErrorKind::InvalidData,
            None,
        ),
        (
            StreamError::Encryption(Error::RngFailure),
            "random backend generation failed",
            StreamErrorKind::Other,
            Some(Error::RngFailure),
        ),
        (
            StreamError::Decryption(Error::Truncated),
            "FLOE input has no authenticated final segment",
            StreamErrorKind::InvalidData,
            Some(Error::Truncated),
        ),
        (
            StreamError::Input(Error::LengthOverflow),
            "FLOE length calculation overflowed",
            StreamErrorKind::InvalidInput,
            Some(Error::LengthOverflow),
        ),
        (
            StreamError::SegmentOutOfRange {
                position: 3,
                count: 3,
            },
            "FLOE segment position 3 is outside 0..3",
            StreamErrorKind::InvalidInput,
            None,
        ),
        (
            StreamError::RangeOutOfBounds {
                start: 5,
                end: 18_446_744_073_709_551_615,
                length: 10,
            },
            "plaintext range 5..18446744073709551615 is outside 0..10",
            StreamErrorKind::InvalidInput,
            None,
        ),
        (
            StreamError::SeekOutOfRange,
            "seek outside the representable plaintext position range",
            StreamErrorKind::InvalidInput,
            None,
        ),
        (
            StreamError::EndsBeforeStart,
            "FLOE ciphertext ends before its starting position",
            StreamErrorKind::InvalidData,
            None,
        ),
    ];
    for (error, message, kind, source) in cases {
        assert_eq!(error.to_string(), message);
        assert_eq!(error.kind(), kind);
        assert_eq!(error.source(), source);
    }
}

#[test]
fn inputs_give_their_errors() {
    let key = test_key();
    let parameters = Parameters::segment_64_b();

    assert_eq!(
        Key::try_from([0; 31].as_slice()).err(),
        Some(Error::InvalidKeyLength { actual: 31 })
    );
    assert_eq!(
        Header::try_from([0; 75].as_slice()).err(),
        Some(Error::InvalidHeaderLength { actual: 75 })
    );
    assert_eq!(
        decrypt(&key, b"", &[0; 73]),
        Err(Error::InvalidHeaderLength { actual: 73 })
    );
    assert_eq!(
        decrypt(&key, b"", &[0; 74]),
        Err(Error::InvalidHeaderParameters)
    );

    let message = encrypt(&key, b"aad", parameters, b"text").unwrap();
    assert_eq!(
        decrypt_with_parameters(&key, b"aad", Parameters::segment_4_kib(), &message),
        Err(Error::InvalidHeaderParameters)
    );
    assert_eq!(
        decrypt(&key, b"other", &message),
        Err(Error::InvalidHeaderTag)
    );
    assert_eq!(
        decrypt(&key, b"aad", &message[..Header::LEN]),
        Err(Error::Truncated)
    );
    assert_eq!(
        decrypt(&key, b"aad", &message[..message.len() - 1]),
        Err(Error::InvalidCiphertextLength {
            actual: 35,
            required: LengthRequirement::AtLeast(36),
        })
    );
    let mut longer = message.clone();
    longer.push(0);
    assert_eq!(
        decrypt(&key, b"aad", &longer),
        Err(Error::InvalidCiphertextLength {
            actual: 37,
            required: LengthRequirement::Exactly(36),
        })
    );
    let mut tampered = message.clone();
    *tampered.last_mut().unwrap() ^= 1;
    assert_eq!(
        decrypt(&key, b"aad", &tampered),
        Err(Error::AuthenticationFailed)
    );
    let mut misframed = message;
    misframed[Header::LEN..Header::LEN + 4].copy_from_slice(&[0, 0, 0, 31]);
    assert_eq!(
        decrypt(&key, b"aad", &misframed),
        Err(Error::InvalidCiphertextLength {
            actual: 31,
            required: LengthRequirement::Between {
                minimum: 32,
                maximum: 64,
            },
        })
    );

    assert_eq!(
        parameters.plaintext_layout(32 * AEAD_MAX_SEGMENTS + 1),
        Err(Error::SegmentLimit)
    );
    let largest = Parameters::from_segment_length(u32::MAX - 1).unwrap();
    assert_eq!(
        largest.plaintext_layout(u64::MAX),
        Err(Error::LengthOverflow)
    );
    assert_eq!(
        SegmentCounter {
            next: AEAD_MAX_SEGMENTS,
            closed: false,
        }
        .position_for(SegmentKind::Final),
        Err(Error::SegmentLimit)
    );
}

#[test]
fn buffers_and_states_give_their_errors() {
    let key = test_key();
    let parameters = Parameters::segment_64_b();
    let (mut state, header) = start_encryption(&key, b"", parameters).unwrap();
    let layout = parameters.plaintext_layout(40).unwrap();
    let other = Parameters::segment_4_kib().plaintext_layout(5).unwrap();
    let mut buffer = SegmentBuffer::new(parameters);

    assert_eq!(
        buffer.prepare_plaintext(33).err(),
        Some(Error::InvalidPlaintextLength {
            actual: 33,
            required: LengthRequirement::AtMost(32),
        })
    );
    assert_eq!(buffer.plaintext(), Err(Error::InvalidBufferState));
    assert_eq!(buffer.ciphertext(), Err(Error::InvalidBufferState));
    assert_eq!(
        state.encrypt_segment(b"short", other.final_segment()),
        Err(Error::InvalidParameters)
    );
    assert_eq!(
        state.encrypt_segment(b"short", layout.segment_for_position(0).unwrap()),
        Err(Error::InvalidPlaintextLength {
            actual: 5,
            required: LengthRequirement::Exactly(32),
        })
    );
    assert_eq!(
        state.encrypt_segment_into(&[0; 8], layout.final_segment(), &mut [0; 39]),
        Err(Error::OutputTooSmall {
            actual: 39,
            required: 40,
        })
    );

    let segment = state
        .encrypt_segment(&[1; 32], layout.segment_for_position(0).unwrap())
        .unwrap();
    let mut damaged = segment.clone();
    damaged[0] = 0;
    let mut decryption =
        fast_floe::low_level::start_decryption(&key, b"", parameters, &header).unwrap();
    assert_eq!(
        decryption.decrypt_segment(&damaged, layout.segment_for_position(0).unwrap()),
        Err(Error::InvalidSegmentPrefix)
    );
    assert_eq!(
        decryption
            .decrypt_segment(&segment, layout.segment_for_position(0).unwrap())
            .unwrap(),
        vec![1; 32]
    );
}

#[test]
fn a_closed_message_takes_no_more_segments() {
    let key = test_key();
    let encryptor = Encryptor::new(&key, b"", Parameters::segment_64_b()).unwrap();
    let mut decryptor = Decryptor::new(&key, b"", encryptor.header()).unwrap();
    let segment = match encryptor.encrypt_final_segment(b"end") {
        Ok(segment) => segment,
        Err(failure) => panic!("{}", failure.to_string()),
    };
    assert_eq!(decryptor.decrypt_segment(&segment).unwrap(), b"end");
    assert_eq!(decryptor.decrypt_segment(&segment), Err(Error::Closed));
    decryptor.finish().unwrap();
}

#[test]
fn a_failed_final_segment_describes_itself() {
    let key = test_key();
    let encryptor = Encryptor::new(&key, b"", Parameters::segment_64_b()).unwrap();
    let failure = match encryptor.encrypt_final_segment(&[0; 33]) {
        Ok(_) => unreachable!(),
        Err(failure) => failure,
    };
    assert_eq!(
        failure.to_string(),
        "failed to encrypt final FLOE segment: invalid plaintext segment length 33; required at \
         most 32"
    );
    let (error, encryptor) = failure.into_parts();
    assert_eq!(
        error,
        Error::InvalidPlaintextLength {
            actual: 33,
            required: LengthRequirement::AtMost(32),
        }
    );
    assert_eq!(encryptor.next_position(), 0);
}
