use fast_floe::io::{
    DecryptReader, DrainStep, EncryptReader, ReadStep, StreamError, StreamErrorKind,
};
use fast_floe::low_level::{
    start_decryption, start_encryption, SegmentBuffer, AEAD_MAX_SEGMENTS, AEAD_TAG_LENGTH,
    SEGMENT_PAYLOAD_OFFSET,
};
use fast_floe::online::{Decryptor, Encryptor};
use fast_floe::{
    decrypt, encrypt, Error, Header, Key, LengthRequirement, Parameters, Provider, SegmentKind,
};

fn key_of(provider: Provider) -> Key {
    Key::from_bytes_with_provider([0x5a; Key::LEN], provider)
}

fn test_key() -> Key {
    key_of(Provider::COMPILED[0])
}

fn pattern(length: usize) -> Vec<u8> {
    (0..length)
        .map(|index| u8::try_from(index % 253).unwrap())
        .collect()
}

#[test]
fn altered_tags_and_other_keys_are_rejected() {
    for provider in Provider::COMPILED {
        let key = key_of(provider);
        for length in [0, 5, 32, 33, 70] {
            let parameters = Parameters::segment_64_b();
            let message = encrypt(&key, b"aad", parameters, &pattern(length)).unwrap();
            assert_eq!(
                decrypt(&key, b"other", &message),
                Err(Error::InvalidHeaderTag)
            );
            let other = Key::from_bytes_with_provider([0x5b; Key::LEN], provider);
            assert_eq!(
                decrypt(&other, b"aad", &message),
                Err(Error::InvalidHeaderTag)
            );
            for index in 42..74 {
                let mut altered = message.clone();
                altered[index] ^= 1;
                assert_eq!(
                    decrypt(&key, b"aad", &altered),
                    Err(Error::InvalidHeaderTag)
                );
            }
            for index in message.len() - AEAD_TAG_LENGTH..message.len() {
                let mut altered = message.clone();
                altered[index] ^= 0x80;
                assert_eq!(
                    decrypt(&key, b"aad", &altered),
                    Err(Error::AuthenticationFailed)
                );
            }
        }
    }
}

#[test]
fn cut_and_extended_bodies_have_their_exact_errors() {
    let message = encrypt(
        &test_key(),
        b"",
        Parameters::segment_64_b(),
        &pattern(40),
    )
    .unwrap();
    let total = message.len() - Header::LEN;
    assert_eq!(total, 64 + 40);
    for length in 0..total {
        let actual = length % 64;
        let whole = if length < 64 { 64 } else { 40 };
        let expected = if actual == 0 {
            Error::Truncated
        } else if actual < 4 {
            Error::InvalidCiphertextLength {
                actual,
                required: LengthRequirement::Between {
                    minimum: 4,
                    maximum: 64,
                },
            }
        } else {
            Error::InvalidCiphertextLength {
                actual,
                required: LengthRequirement::AtLeast(whole),
            }
        };
        assert_eq!(
            decrypt(&test_key(), b"", &message[..Header::LEN + length]),
            Err(expected)
        );
    }
    let mut longer = message;
    for more in 1..70 {
        longer.push(0);
        assert_eq!(
            decrypt(&test_key(), b"", &longer),
            Err(Error::InvalidCiphertextLength {
                actual: 40 + more,
                required: LengthRequirement::Exactly(40),
            })
        );
    }
}

#[test]
fn an_encrypting_reader_returns_a_message_of_canonical_length() {
    let parameters = Parameters::segment_64_b();
    for length in [0, 1, 31, 32, 33, 64, 65, 96] {
        let plaintext = pattern(length);
        let mut reader =
            EncryptReader::new(plaintext.as_slice(), &test_key(), b"aad", parameters).unwrap();
        let header = reader.header().as_bytes().to_vec();
        let mut returned = Vec::new();
        let mut sizes = [1, 64, 3, 200, 17].into_iter().cycle();
        loop {
            let mut output = vec![0; sizes.next().unwrap()];
            match reader.read(&mut output).unwrap() {
                ReadStep::Served(0) => break,
                ReadStep::Served(read) => returned.extend_from_slice(&output[..read]),
                ReadStep::Fetch => {
                    while reader.input_length() > 0 {
                        let (inner, target) = reader.input();
                        let read = inner.len().min(target.len()).min(5);
                        target[..read].copy_from_slice(&inner[..read]);
                        *inner = &inner[read..];
                        reader.input_read(read);
                    }
                }
            }
        }
        assert!(reader.is_finished());
        assert_eq!(reader.read(&mut [0; 9]), Ok(ReadStep::Served(0)));
        assert_eq!(&returned[..Header::LEN], header.as_slice());
        assert_eq!(decrypt(&test_key(), b"aad", &returned).unwrap(), plaintext);
        assert_eq!(
            u64::try_from(returned.len()).unwrap(),
            parameters
                .plaintext_layout(u64::try_from(length).unwrap())
                .unwrap()
                .ciphertext_length()
        );
    }
}

/// Reads a decrypting reader over `stream` until it fails or ends, and returns
/// what it handed out with the reader.
fn read_until_failure<'a>(
    header: Header,
    stream: &'a [u8],
    size: usize,
) -> (Vec<u8>, Option<StreamError>, DecryptReader<&'a [u8]>) {
    let mut reader = DecryptReader::new(stream, &test_key(), b"", header).unwrap();
    let mut returned = Vec::new();
    let mut output = vec![0; size];
    loop {
        match reader.read(&mut output) {
            Ok(ReadStep::Served(0)) => return (returned, None, reader),
            Ok(ReadStep::Served(read)) => returned.extend_from_slice(&output[..read]),
            Ok(ReadStep::Fetch) => {
                while reader.input_length() > 0 {
                    let (inner, target) = reader.input();
                    let read = inner.len().min(target.len()).min(13);
                    target[..read].copy_from_slice(&inner[..read]);
                    *inner = &inner[read..];
                    if let Err(error) = reader.input_read(read) {
                        return (returned, Some(error), reader);
                    }
                }
            }
            Err(error) => return (returned, Some(error), reader),
        }
    }
}

#[test]
fn a_damaged_stream_serves_exactly_the_segments_before_the_damage() {
    let plaintext = pattern(100);
    let message = encrypt(&test_key(), b"", Parameters::segment_64_b(), &plaintext).unwrap();
    let header = Header::try_from(&message[..Header::LEN]).unwrap();
    let body = &message[Header::LEN..];
    for size in [1, 32, 50] {
        for index in 0..body.len() {
            let expected = &plaintext[..index / 64 * 32];

            let (returned, error, mut reader) = read_until_failure(header, &body[..index], size);
            assert_eq!(returned, expected);
            assert!(error.is_some());
            assert_eq!(reader.read(&mut [0; 3]), Err(StreamError::Poisoned));
            assert_eq!(reader.read(&mut []), Ok(ReadStep::Served(0)));
            assert_eq!(reader.try_finish_frame(), Err(StreamError::Poisoned));

            let mut altered = body.to_vec();
            altered[index] ^= 0x40;
            let (returned, error, mut reader) = read_until_failure(header, &altered, size);
            assert_eq!(returned, expected);
            assert!(error.is_some());
            assert_eq!(reader.read(&mut [0; 3]), Err(StreamError::Poisoned));
        }
        let (returned, error, reader) = read_until_failure(header, body, size);
        assert_eq!(returned, plaintext);
        assert_eq!(error, None);
        assert!(reader.is_finished());
    }
}

#[test]
fn finishing_requires_that_nothing_follows() {
    let plaintext = pattern(100);
    let message = encrypt(&test_key(), b"", Parameters::segment_64_b(), &plaintext).unwrap();
    let header = Header::try_from(&message[..Header::LEN]).unwrap();
    for more in [0, 1, 80] {
        for before in [0, 40, 100] {
            let mut stream = message[Header::LEN..].to_vec();
            stream.extend_from_slice(&pattern(more));
            let mut reader =
                DecryptReader::new(stream.as_slice(), &test_key(), b"", header).unwrap();
            let mut left = before;
            loop {
                let fetch = if left > 0 {
                    match reader.read(&mut vec![0; left]).unwrap() {
                        ReadStep::Served(read) => {
                            left -= read;
                            false
                        }
                        ReadStep::Fetch => true,
                    }
                } else {
                    match reader.try_finish_frame().unwrap() {
                        DrainStep::Done => break,
                        DrainStep::Fetch => true,
                    }
                };
                while fetch && reader.input_length() > 0 {
                    let (inner, target) = reader.input();
                    let read = inner.len().min(target.len());
                    target[..read].copy_from_slice(&inner[..read]);
                    *inner = &inner[read..];
                    reader.input_read(read).unwrap();
                }
            }
            assert!(reader.is_finished());
            assert_eq!(reader.get_ref().len(), more);
            let trailing = more.min(1);
            if more == 0 {
                assert_eq!(reader.try_finish(trailing), Ok(()));
                assert_eq!(reader.try_finish_frame(), Ok(DrainStep::Done));
                assert_eq!(reader.try_finish(trailing), Ok(()));
            } else {
                let error = reader.try_finish(trailing).unwrap_err();
                assert_eq!(error, StreamError::TrailingData);
                assert_eq!(error.kind(), StreamErrorKind::InvalidData);
                assert_eq!(reader.try_finish_frame(), Err(StreamError::Poisoned));
                assert_eq!(reader.read(&mut [0; 3]), Err(StreamError::Poisoned));
            }
        }
    }
}

#[test]
fn early_errors_leave_the_output_as_it_was() {
    let parameters = Parameters::segment_64_b();
    let layout = parameters.plaintext_layout(20).unwrap();
    let segment = layout.final_segment();
    let other = Parameters::segment_1_mib()
        .plaintext_layout(20)
        .unwrap()
        .final_segment();
    let plaintext = pattern(20);
    for provider in Provider::COMPILED {
        let (mut state, header) = start_encryption(&key_of(provider), b"", parameters).unwrap();
        let mut output = vec![0xee; 51];
        let too_small = Error::OutputTooSmall {
            actual: 51,
            required: 52,
        };
        assert_eq!(
            state.encrypt_segment_into(&plaintext, segment, &mut output),
            Err(too_small)
        );
        assert_eq!(
            state.encrypt_segment_with_nonce(&[7; 12], &plaintext, segment, &mut output),
            Err(too_small)
        );
        assert_eq!(
            state.encrypt_segment_in_place_raw(&mut output, segment),
            Err(too_small)
        );
        assert_eq!(output, vec![0xee; 51]);
        let mut output = vec![0xee; 60];
        assert_eq!(
            state.encrypt_segment_into(&plaintext, other, &mut output),
            Err(Error::InvalidParameters)
        );
        assert_eq!(
            state.encrypt_segment_in_place_raw(&mut output, other),
            Err(Error::InvalidParameters)
        );
        assert_eq!(output, vec![0xee; 60]);

        let sealed = state.encrypt_segment(&plaintext, segment).unwrap();
        let mut opener = start_decryption(&key_of(provider), b"", parameters, &header).unwrap();
        let mut output = vec![0xee; 19];
        assert_eq!(
            opener.decrypt_segment_into(&sealed, segment, &mut output),
            Err(Error::OutputTooSmall {
                actual: 19,
                required: 20,
            })
        );
        assert_eq!(output, vec![0xee; 19]);
        let mut broken = sealed.clone();
        broken[3] = 40;
        let kept = broken.clone();
        assert_eq!(
            opener.decrypt_segment_in_place_raw(&mut broken, segment),
            Err(Error::InvalidCiphertextLength {
                actual: 52,
                required: LengthRequirement::Exactly(40),
            })
        );
        assert_eq!(broken, kept);
        let mut short = sealed[..SEGMENT_PAYLOAD_OFFSET].to_vec();
        assert_eq!(
            opener.decrypt_segment_in_place_raw(&mut short, segment),
            Err(Error::InvalidCiphertextLength {
                actual: SEGMENT_PAYLOAD_OFFSET,
                required: LengthRequirement::AtLeast(52),
            })
        );
        assert_eq!(short, &sealed[..SEGMENT_PAYLOAD_OFFSET]);

        let encryptor = Encryptor::new(&key_of(provider), b"", parameters).unwrap();
        let header = *encryptor.header();
        let mut output = vec![0xee; 51];
        let failure = match encryptor.encrypt_final_segment_into(&plaintext, &mut output) {
            Ok(_) => panic!("the output is too small"),
            Err(failure) => failure,
        };
        assert_eq!(*failure.error(), too_small);
        assert_eq!(output, vec![0xee; 51]);
        let encryptor = failure.into_encryptor();
        assert_eq!(*encryptor.header(), header);
        assert_eq!(encryptor.next_position(), 0);
        let mut output = vec![0xee; 52];
        assert!(matches!(
            encryptor.encrypt_final_segment_into(&plaintext, &mut output),
            Ok(52)
        ));
        let mut decryptor = Decryptor::new(&key_of(provider), b"", &header).unwrap();
        assert_eq!(decryptor.decrypt_segment(&output).unwrap(), plaintext);
    }
}

#[test]
fn the_segment_limit_is_met_after_a_nonce_is_taken() {
    let parameters = Parameters::segment_64_b();
    for provider in Provider::COMPILED {
        let (mut state, _) = start_encryption(&key_of(provider), b"", parameters).unwrap();
        let first = state
            .encrypt_segment_at(b"text", 0, SegmentKind::Final)
            .unwrap();
        let mut output = vec![0xee; 40];
        assert_eq!(
            state.encrypt_segment_into_at(
                b"text",
                AEAD_MAX_SEGMENTS,
                SegmentKind::Final,
                &mut output
            ),
            Err(Error::SegmentLimit)
        );
        assert_eq!(output[..4], [0, 0, 0, 36]);
        assert_eq!(output[SEGMENT_PAYLOAD_OFFSET..], [0xee; 24]);
        let last = state
            .encrypt_segment_at(b"text", 1, SegmentKind::Final)
            .unwrap();
        assert_ne!(output[4..16], first[4..16]);
        assert_ne!(output[4..16], last[4..16]);
        assert_ne!(output[4..16], [0xee; 12]);
    }
}

#[test]
fn prepared_storage_holds_what_it_held() {
    let mut buffer = SegmentBuffer::new(Parameters::segment_64_b());
    assert_eq!(buffer.prepare_ciphertext(64).unwrap(), [0; 64]);
    buffer
        .prepare_ciphertext(64)
        .unwrap()
        .copy_from_slice(&pattern(64));
    assert_eq!(buffer.prepare_plaintext(32).unwrap(), &pattern(64)[16..48]);
    buffer.prepare_plaintext(2).unwrap().copy_from_slice(b"ab");
    let mut expected = pattern(64);
    expected[16..18].copy_from_slice(b"ab");
    assert_eq!(buffer.prepare_ciphertext(64).unwrap(), expected.as_slice());
}
