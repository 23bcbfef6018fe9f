use fast_floe::io::{
    DecryptReader, DrainStep, EncryptReader, EncryptWriter, FinishStep, ReadProgress, ReadStep,
    StreamError, WriteStep,
};
use fast_floe::low_level::{
    start_decryption, start_encryption, SegmentBuffer, SegmentCounter, AEAD_IV_LENGTH,
    AEAD_MAX_SEGMENTS, NONCE_BATCH_LENGTH, ROTATION_INTERVAL, SEGMENT_OVERHEAD,
};
use fast_floe::online::{Decryptor, Encryptor};
use fast_floe::random_access::{RangeBound, RangeStep, Reader, Request, SegmentStep};
use fast_floe::{
    decrypt, decrypt_with_parameters, encrypt, Error, Header, Key, Parameters, Provider,
    SegmentFraming, SegmentKind,
};

fn key_of(provider: Provider) -> Key {
    Key::from_bytes_with_provider([0x5a; Key::LEN], provider)
}

fn test_key() -> Key {
    key_of(Provider::COMPILED[0])
}

fn pattern(length: usize) -> Vec<u8> {
    (0..length)
        .map(|index| u8::try_from(index % 253).unwrap())
        .collect()
}

/// Writes `chunks` through an encrypting writer and returns its output.
fn written(key: &Key, aad: &[u8], parameters: Parameters, chunks: &[&[u8]]) -> Vec<u8> {
    let mut writer = EncryptWriter::new(Vec::new(), key, aad, parameters).unwrap();
    let (inner, bytes) = writer.output();
    inner.extend_from_slice(bytes);
    assert_eq!(writer.output_written(), 0);
    for chunk in chunks {
        let mut rest = *chunk;
        while !rest.is_empty() {
            match writer.write(rest).unwrap() {
                WriteStep::Accepted(accepted) => rest = &rest[accepted..],
                WriteStep::Emit => {
                    let (inner, bytes) = writer.output();
                    inner.extend_from_slice(bytes);
                    rest = &rest[writer.output_written()..];
                }
            }
        }
    }
    assert_eq!(writer.try_finish(), Ok(FinishStep::Emit));
    let (inner, bytes) = writer.output();
    inner.extend_from_slice(bytes);
    assert_eq!(writer.output_written(), 0);
    assert!(writer.is_finished());
    assert_eq!(writer.try_finish(), Ok(FinishStep::Done));
    assert_eq!(writer.write(b"more"), Err(StreamError::AlreadyFinished));
    match writer.finish::<StreamError>(Ok(())) {
        Ok(inner) => inner,
        Err(failure) => panic!("{}", failure.error().to_string()),
    }
}

/// Reads an encrypting reader over `plaintext` to its end, `size` bytes at a
/// time.
fn read_encrypted(
    key: &Key,
    aad: &[u8],
    parameters: Parameters,
    plaintext: &[u8],
    size: usize,
) -> Vec<u8> {
    let mut reader = EncryptReader::new(plaintext, key, aad, parameters).unwrap();
    let mut ciphertext = Vec::new();
    let mut output = vec![0; size];
    loop {
        match reader.read(&mut output).unwrap() {
            ReadStep::Served(0) => break,
            ReadStep::Served(read) => ciphertext.extend_from_slice(&output[..read]),
            ReadStep::Fetch => {
                while reader.input_length() > 0 {
                    let (inner, target) = reader.input();
                    let read = inner.len().min(target.len()).min(7);
                    target[..read].copy_from_slice(&inner[..read]);
                    *inner = &inner[read..];
                    reader.input_read(read);
                }
            }
        }
    }
    assert!(reader.is_finished());
    ciphertext
}

/// Reads a decrypting reader over `ciphertext` to its end, `size` bytes at a
/// time.
fn read_decrypted(
    key: &Key,
    aad: &[u8],
    ciphertext: &[u8],
    size: usize,
) -> Result<Vec<u8>, StreamError> {
    let header = Header::try_from(&ciphertext[..Header::LEN]).unwrap();
    let mut reader = DecryptReader::new(&ciphertext[Header::LEN..], key, aad, header)?;
    let mut plaintext = Vec::new();
    let mut output = vec![0; size];
    loop {
        match reader.read(&mut output)? {
            ReadStep::Served(0) if reader.is_finished() => break,
            ReadStep::Served(read) => plaintext.extend_from_slice(&output[..read]),
            ReadStep::Fetch => {
                while reader.input_length() > 0 {
                    let (inner, target) = reader.input();
                    let read = inner.len().min(target.len()).min(11);
                    target[..read].copy_from_slice(&inner[..read]);
                    *inner = &inner[read..];
                    reader.input_read(read)?;
                }
            }
        }
    }
    assert_eq!(reader.try_finish_frame(), Ok(DrainStep::Done));
    let trailing = reader.get_ref().len().min(1);
    reader.try_finish(trailing)?;
    Ok(plaintext)
}

#[test]
fn decryption_undoes_encryption_for_every_pair_of_providers() {
    let parameters = Parameters::segment_64_b();
    for length in [0, 1, 31, 32, 33, 64, 100] {
        let plaintext = pattern(length);
        for from in Provider::COMPILED {
            let message = encrypt(&key_of(from), b"pair", parameters, &plaintext).unwrap();
            for to in Provider::COMPILED {
                assert_eq!(decrypt(&key_of(to), b"pair", &message).unwrap(), plaintext);
            }
        }
    }
}

#[test]
fn no_shorter_or_longer_message_decrypts() {
    let message = encrypt(
        &test_key(),
        b"",
        Parameters::segment_64_b(),
        &pattern(70),
    )
    .unwrap();
    for length in 0..message.len() {
        assert!(decrypt(&test_key(), b"", &message[..length]).is_err());
    }
    let mut longer = message;
    for _ in 0..70 {
        longer.push(0);
        assert!(decrypt(&test_key(), b"", &longer).is_err());
    }
}

#[test]
fn demanding_the_declared_parameters_changes_nothing() {
    let message = encrypt(&test_key(), b"", Parameters::segment_64_b(), b"text").unwrap();
    assert_eq!(
        decrypt_with_parameters(&test_key(), b"", Parameters::segment_64_b(), &message).unwrap(),
        b"text"
    );
    assert_eq!(
        decrypt_with_parameters(&test_key(), b"", Parameters::segment_1_mib(), &message),
        Err(Error::InvalidHeaderParameters)
    );
}

#[test]
fn release_build_enforces_documented_segment_length_bounds() {
    assert_eq!(Parameters::VALID_SEGMENT_LENGTHS, 64..u32::MAX);

    // Both documented endpoints are accepted
    assert!(Parameters::from_segment_length(64).is_ok());
    assert!(Parameters::from_segment_length(u32::MAX - 1).is_ok());

    // Values just outside the documented range are rejected
    assert_eq!(
        Parameters::from_segment_length(63),
        Err(Error::InvalidParameters)
    );
    assert_eq!(
        Parameters::from_segment_length(u32::MAX),
        Err(Error::InvalidParameters)
    );
}

#[test]
fn encodings_come_back_and_differ() {
    let first = Parameters::from_segment_length(65).unwrap();
    let second = Parameters::from_segment_length(66).unwrap();
    assert_eq!(Parameters::decode(first.encode()), Ok(first));
    assert_ne!(first.encode(), second.encode());
    let mut other = first.encode();
    other[0] = 1;
    assert_eq!(
        Parameters::decode(other),
        Err(Error::InvalidHeaderParameters)
    );
}

#[test]
fn layouts_tile_the_message_and_come_back_from_its_length() {
    let parameters = Parameters::segment_64_b();
    for length in [0, 1, 32, 33, 95, 96, 97] {
        let layout = parameters.plaintext_layout(length).unwrap();
        assert_eq!(
            parameters.ciphertext_layout(layout.ciphertext_length()),
            Ok(layout)
        );
        let mut plaintext_end = 0;
        let mut ciphertext_end = u64::try_from(Header::LEN).unwrap();
        let segments = layout.segments().collect();
        for segment in &segments {
            assert_eq!(segment.plaintext_offset(), plaintext_end);
            assert_eq!(segment.ciphertext_offset(), ciphertext_end);
            assert_eq!(
                segment.ciphertext_length(),
                segment.plaintext_length() + SEGMENT_OVERHEAD
            );
            plaintext_end += u64::try_from(segment.plaintext_length()).unwrap();
            ciphertext_end += u64::try_from(segment.ciphertext_length()).unwrap();
        }
        assert_eq!(plaintext_end, length);
        assert_eq!(ciphertext_end, layout.ciphertext_length());
        assert_eq!(segments.last(), Some(&layout.final_segment()));
        assert_eq!(
            segments.iter().filter(|segment| segment.is_final()).count(),
            1
        );
    }
}

#[test]
fn an_empty_final_segment_is_laid_out_but_not_canonical() {
    let parameters = Parameters::segment_64_b();
    let layout = parameters.ciphertext_layout(74 + 64 + 32).unwrap();
    assert_eq!(layout.segment_count(), 2);
    assert_eq!(layout.plaintext_length(), 32);
    assert_eq!(parameters.plaintext_layout(32).unwrap().segment_count(), 1);
}

#[test]
fn prefixes_declare_their_segments() {
    let parameters = Parameters::segment_64_b();
    let framing = SegmentFraming::decode(parameters, [0, 0, 0, 40]).unwrap();
    assert_eq!(framing.kind(), SegmentKind::Final);
    assert_eq!(framing.ciphertext_length(), 40);
    assert_eq!(framing.plaintext_length(), 8);
    let framing = SegmentFraming::decode(parameters, [0xff; 4]).unwrap();
    assert_eq!(framing.kind(), SegmentKind::NonFinal);
    assert_eq!(framing.ciphertext_length(), 64);
}

#[test]
fn segment_keys_rotate_with_the_interval() {
    let parameters = Parameters::segment_64_b();
    assert_eq!(parameters.masked_position(0), 0);
    assert_eq!(parameters.masked_position(ROTATION_INTERVAL - 1), 0);
    assert_eq!(
        parameters.masked_position(ROTATION_INTERVAL),
        ROTATION_INTERVAL
    );
    assert_eq!(
        parameters.masked_position(3 * ROTATION_INTERVAL + 17),
        3 * ROTATION_INTERVAL
    );
}

#[test]
fn a_final_segment_always_fits() {
    let mut counter = SegmentCounter {
        next: AEAD_MAX_SEGMENTS - 1,
        closed: false,
    };
    assert_eq!(
        counter.position_for(SegmentKind::NonFinal),
        Err(Error::SegmentLimit)
    );
    assert_eq!(
        counter.position_for(SegmentKind::Final),
        Ok(AEAD_MAX_SEGMENTS - 1)
    );
    counter.complete(SegmentKind::Final);
    for kind in [SegmentKind::NonFinal, SegmentKind::Final] {
        assert_eq!(counter.position_for(kind), Err(Error::Closed));
    }
}

#[test]
fn consecutive_segments_take_different_nonces() {
    let parameters = Parameters::segment_64_b();
    for provider in Provider::COMPILED {
        let (mut state, _) = start_encryption(&key_of(provider), b"", parameters).unwrap();
        let mut nonces = std::collections::HashSet::new();
        let count = 2 * NONCE_BATCH_LENGTH / AEAD_IV_LENGTH + 1;
        for position in 0..u64::try_from(count).unwrap() {
            let segment = state
                .encrypt_segment_at(b"", position, SegmentKind::Final)
                .unwrap();
            assert!(nonces.insert(segment[4..16].to_vec()));
        }
    }
}

#[test]
fn positions_and_kinds_are_authenticated() {
    let parameters = Parameters::segment_64_b();
    let (mut encryption, header) = start_encryption(&test_key(), b"", parameters).unwrap();
    let mut decryption = start_decryption(&test_key(), b"", parameters, &header).unwrap();
    let segment = encryption
        .encrypt_segment_at(&[9; 32], 5, SegmentKind::NonFinal)
        .unwrap();
    assert_eq!(
        decryption
            .decrypt_segment_at(&segment, 5, SegmentKind::NonFinal)
            .unwrap(),
        [9; 32]
    );
    assert_eq!(
        decryption.decrypt_segment_at(&segment, 6, SegmentKind::NonFinal),
        Err(Error::AuthenticationFailed)
    );
    let mut reframed = segment;
    reframed[..4].copy_from_slice(&[0, 0, 0, 64]);
    assert_eq!(
        decryption.decrypt_segment_at(&reframed, 5, SegmentKind::Final),
        Err(Error::AuthenticationFailed)
    );
}

#[test]
fn segments_encrypted_in_order_decrypt_in_order() {
    let parameters = Parameters::segment_64_b();
    let mut encryptor = Encryptor::new(&test_key(), b"order", parameters).unwrap();
    let header = *encryptor.header();
    let first = encryptor.encrypt_non_final_segment(&[1; 32]).unwrap();
    let second = encryptor.encrypt_non_final_segment(&[2; 32]).unwrap();
    let last = match encryptor.encrypt_final_segment(b"3") {
        Ok(segment) => segment,
        Err(failure) => panic!("{}", failure.to_string()),
    };

    let mut decryptor = Decryptor::new(&test_key(), b"order", &header).unwrap();
    assert_eq!(
        decryptor.decrypt_segment(&second),
        Err(Error::AuthenticationFailed)
    );
    assert_eq!(decryptor.next_position(), 0);
    assert_eq!(decryptor.decrypt_segment(&first).unwrap(), [1; 32]);
    assert_eq!(decryptor.decrypt_segment(&second).unwrap(), [2; 32]);
    assert!(!decryptor.is_finished());
    assert_eq!(decryptor.decrypt_segment(&last).unwrap(), b"3");
    assert!(decryptor.is_finished());
    decryptor.finish().unwrap();
}

#[test]
fn forked_states_belong_to_one_message() {
    let parameters = Parameters::segment_64_b();
    let layout = parameters.plaintext_layout(40).unwrap();
    let (state, header) = start_encryption(&test_key(), b"", parameters).unwrap();
    let shared = state.into_shared();
    let mut message = header.as_bytes().to_vec();
    let last = shared
        .fork()
        .encrypt_segment(&[2; 8], layout.final_segment())
        .unwrap();
    let first = shared
        .clone()
        .fork()
        .encrypt_segment(&[1; 32], layout.segment_for_position(0).unwrap())
        .unwrap();
    message.extend(first);
    message.extend(last);
    let mut plaintext = vec![1; 32];
    plaintext.extend([2; 8]);
    assert_eq!(decrypt(&test_key(), b"", &message).unwrap(), plaintext);
}

#[test]
fn a_finished_writer_leaves_a_message_of_what_it_took() {
    let parameters = Parameters::segment_64_b();
    for length in [0, 1, 31, 32, 33, 64, 97] {
        let plaintext = pattern(length);
        let (head, tail) = plaintext.split_at(length / 3);
        let message = written(&test_key(), b"io", parameters, &[head, tail]);
        assert_eq!(decrypt(&test_key(), b"io", &message).unwrap(), plaintext);
        for size in [1, 5, 32, 200] {
            assert_eq!(
                read_decrypted(&test_key(), b"io", &message, size),
                Ok(plaintext.clone())
            );
        }
    }
}

#[test]
fn a_finished_reader_has_served_a_message_of_what_it_read() {
    let parameters = Parameters::segment_64_b();
    for length in [0, 1, 31, 32, 33, 64, 97] {
        let plaintext = pattern(length);
        for size in [1, 5, 64, 200] {
            let message = read_encrypted(&test_key(), b"io", parameters, &plaintext, size);
            assert_eq!(decrypt(&test_key(), b"io", &message).unwrap(), plaintext);
        }
    }
}

#[test]
fn a_decrypting_reader_requires_the_end_and_stays_poisoned() {
    let parameters = Parameters::segment_64_b();
    let mut message = encrypt(&test_key(), b"", parameters, b"text").unwrap();
    message.push(0);
    assert_eq!(
        read_decrypted(&test_key(), b"", &message, 64),
        Err(StreamError::TrailingData)
    );

    let header = Header::try_from(&message[..Header::LEN]).unwrap();
    let mut reader = DecryptReader::new((), &test_key(), b"", header).unwrap();
    let mut output = [0; 8];
    assert_eq!(reader.read(&mut output), Ok(ReadStep::Fetch));
    assert_eq!(
        reader.input_read(0),
        Err(StreamError::Decryption(Error::Truncated))
    );
    assert_eq!(reader.read(&mut output), Err(StreamError::Poisoned));
    assert_eq!(reader.try_finish_frame(), Err(StreamError::Poisoned));
    assert_eq!(reader.read(&mut []), Ok(ReadStep::Served(0)));
}

#[test]
fn a_failed_writer_stays_poisoned() {
    let mut writer =
        EncryptWriter::new((), &test_key(), b"", Parameters::segment_64_b()).unwrap();
    writer.output_failed();
    assert_eq!(writer.write(b"text"), Err(StreamError::Poisoned));
    assert_eq!(writer.try_finish(), Err(StreamError::Poisoned));
    assert_eq!(writer.flush(), Err(StreamError::Poisoned));
    assert_eq!(writer.write(b""), Ok(WriteStep::Accepted(0)));
}

#[test]
fn progress_counts_what_arrives() {
    let mut progress = ReadProgress::new(5, 1);
    progress.advance(3);
    assert_eq!(progress.filled(), 4);
    assert!(!progress.is_done());
    progress.advance(0);
    assert!(progress.is_done());
    assert_eq!(progress.filled(), 4);
}

/// A random-access reader over a message in memory.
fn opened(message: &[u8]) -> Reader<&[u8]> {
    let header = Header::try_from(&message[..Header::LEN]).unwrap();
    let parameters = header.unverified_parameters().unwrap();
    let state = start_decryption(&test_key(), b"", parameters, &header).unwrap();
    let length = u64::try_from(message.len()).unwrap();
    let mut reader = Reader::from_parts(message, state, header, 0, length).unwrap();
    follow(&mut reader);
    reader.authenticate_end().unwrap();
    follow(&mut reader);
    reader
}

/// Does what a reader requests. Its wrapped reader is the whole message, so a
/// request to read follows the last one to seek.
fn follow(reader: &mut Reader<&[u8]>) {
    let mut position = None;
    loop {
        match reader.request() {
            Request::Nothing => return,
            Request::Seek(offset) => {
                position = Some(usize::try_from(offset).unwrap());
                reader.sought();
            }
            Request::Read => {
                let (inner, target) = reader.input();
                let start = position.unwrap();
                let read = target.len();
                target.copy_from_slice(&inner[start..start + read]);
                reader.input_read(read).unwrap();
            }
        }
        if matches!(reader.request(), Request::Read) && position.is_none() {
            panic!("a read was requested without a seek");
        }
    }
}

#[test]
fn random_access_agrees_with_decryption() {
    let parameters = Parameters::segment_64_b();
    let plaintext = pattern(100);
    let message = encrypt(&test_key(), b"", parameters, &plaintext).unwrap();
    let mut reader = opened(&message);
    assert_eq!(reader.plaintext_length(), 100);
    for position in (0..reader.segment_count()).rev() {
        let start = usize::try_from(position).unwrap() * 32;
        let end = (start + 32).min(100);
        let _ = reader.get_mut();
        assert!(matches!(
            reader.read_segment(position),
            Ok(SegmentStep::Fetch)
        ));
        follow(&mut reader);
        match reader.read_segment(position) {
            Ok(SegmentStep::Done(segment)) => assert_eq!(segment, plaintext[start..end]),
            _ => panic!("the segment was not there"),
        }
    }
}

#[test]
fn ranges_are_read_as_they_stand_in_the_plaintext() {
    let parameters = Parameters::segment_64_b();
    let plaintext = pattern(100);
    let message = encrypt(&test_key(), b"", parameters, &plaintext).unwrap();
    let mut reader = opened(&message);
    for (start, end) in [(0, 100), (5, 9), (31, 33), (32, 64), (1, 99), (40, 40)] {
        let mut range = reader
            .range(RangeBound::Included(start), RangeBound::Excluded(end))
            .unwrap();
        let mut output = vec![0; range.length()];
        loop {
            match reader.read_range_into(&mut range, &mut output).unwrap() {
                RangeStep::Done(read) => {
                    assert_eq!(read, output.len());
                    break;
                }
                RangeStep::Next => {}
                RangeStep::Fetch => {
                    let _ = reader.get_mut();
                    // Restart the request, now that the position is unknown.
                    let step = reader.read_range_into(&mut range, &mut output);
                    assert_eq!(step, Ok(RangeStep::Fetch));
                    follow(&mut reader);
                }
            }
        }
        let (start, end) = (usize::try_from(start).unwrap(), usize::try_from(end).unwrap());
        assert_eq!(output, plaintext[start..end]);
    }
    assert_eq!(
        reader.range(RangeBound::Included(5), RangeBound::Excluded(101)),
        Err(StreamError::RangeOutOfBounds {
            start: 5,
            end: 101,
            length: 100,
        })
    );
    assert_eq!(
        reader.range(RangeBound::Excluded(u64::MAX), RangeBound::Unbounded),
        Err(StreamError::Input(Error::LengthOverflow))
    );
}

#[test]
fn clearing_a_buffer_leaves_zeros() {
    let mut buffer = SegmentBuffer::new(Parameters::segment_64_b());
    buffer.prepare_plaintext(32).unwrap().fill(0xaa);
    buffer.clear();
    assert_eq!(buffer.plaintext(), Err(Error::InvalidBufferState));
    assert!(buffer
        .prepare_ciphertext(64)
        .unwrap()
        .iter()
        .all(|byte| *byte == 0));
}

#[test]
fn generated_keys_differ() {
    for provider in Provider::COMPILED {
        let first = Key::generate_with_provider(provider).unwrap();
        let second = Key::generate_with_provider(provider).unwrap();
        assert_ne!(first.as_bytes(), second.as_bytes());
        assert_ne!(first.as_bytes(), &[0; Key::LEN]);
        assert_eq!(first.provider(), Ok(provider));
    }
}
