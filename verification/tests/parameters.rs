use fast_floe::low_level::{
    AEAD_IV_LENGTH, AEAD_MAX_SEGMENTS, HEADER_LENGTH, SEGMENT_OVERHEAD, SEGMENT_PAYLOAD_OFFSET,
};
use fast_floe::{Error, Parameters, SegmentFraming, SegmentKind, SEGMENT_PREFIX_LENGTH};

#[test]
fn parameter_encoding_matches_specification() {
    // Given the specification's encodings of the fixed parameter sets

    // Then each constant encodes to the specified bytes and reports the
    // specified segment length
    assert_eq!(
        Parameters::segment_4_kib().encode(),
        hex::decode("00000000100000000020").unwrap().as_slice()
    );
    assert_eq!(
        Parameters::segment_1_mib().encode(),
        hex::decode("00000010000000000020").unwrap().as_slice()
    );
    assert_eq!(
        Parameters::segment_4_kib().ciphertext_segment_length(),
        4 * 1024
    );
    assert_eq!(
        Parameters::segment_1_mib().ciphertext_segment_length(),
        1024 * 1024
    );
}

#[test]
fn parameters_accept_every_valid_segment_length() {
    // Given segment lengths across the supported range, including both
    // endpoints
    let valid_range = Parameters::VALID_SEGMENT_LENGTHS;
    let first_valid = valid_range.start;
    let last_valid = valid_range.end - 1;

    for segment_length in [
        first_valid,
        first_valid + 1,
        4 * 1024,
        64 * 1024,
        1_000_000,
        1024 * 1024,
        last_valid,
    ] {
        assert!(valid_range.contains(&segment_length));

        // When parameters are constructed from the segment length
        let parameters = Parameters::from_segment_length(segment_length).unwrap();

        // Then they report that length and survive an encode/decode
        // round trip
        assert_eq!(
            parameters.ciphertext_segment_length(),
            usize::try_from(segment_length).unwrap()
        );
        assert_eq!(Parameters::decode(parameters.encode()), Ok(parameters));
    }
}

#[test]
fn parameters_reject_segment_lengths_outside_valid_range() {
    // Given segment lengths just outside the supported range and at the
    // u32 extremes
    let valid_range = Parameters::VALID_SEGMENT_LENGTHS;
    let first_valid = valid_range.start;

    for segment_length in [0, first_valid - 1, valid_range.end, u32::MAX] {
        assert!(!valid_range.contains(&segment_length));

        // When parameters are constructed from the segment length
        // Then construction is rejected
        assert_eq!(
            Parameters::from_segment_length(segment_length),
            Err(Error::InvalidParameters)
        );

        // When the length is spliced into an otherwise valid encoding
        // Then decoding is rejected as well
        let mut encoded = Parameters::segment_4_kib().encode();
        encoded[2..6].copy_from_slice(&segment_length.to_be_bytes());
        assert!(Parameters::decode(encoded).is_err());
    }
}

#[test]
fn message_layouts_cover_plaintext_boundaries() {
    // Given plaintext lengths at and around every segment boundary
    let parameters = Parameters::segment_4_kib();
    let plaintext_segment_length =
        u64::try_from(parameters.plaintext_segment_length()).unwrap();
    let ciphertext_segment_length =
        u64::try_from(parameters.ciphertext_segment_length()).unwrap();
    let header_length = u64::try_from(HEADER_LENGTH).unwrap();
    let overhead = u64::try_from(SEGMENT_OVERHEAD).unwrap();

    for plaintext_length in [
        0,
        1,
        plaintext_segment_length - 1,
        plaintext_segment_length,
        plaintext_segment_length + 1,
        2 * plaintext_segment_length,
        2 * plaintext_segment_length + 7,
    ] {
        // When the message layout is calculated from the plaintext length
        let layout = parameters.plaintext_layout(plaintext_length).unwrap();
        let expected_count = if plaintext_length == 0 {
            1
        } else {
            (plaintext_length - 1) / plaintext_segment_length + 1
        };

        // Then the layout reports the expected lengths and segment count,
        // and the ciphertext length maps back to the same layout
        assert_eq!(layout.parameters(), parameters);
        assert_eq!(layout.plaintext_length(), plaintext_length);
        assert_eq!(layout.segment_count(), expected_count);
        assert_eq!(
            layout.ciphertext_length(),
            header_length + plaintext_length + expected_count * overhead
        );
        assert_eq!(
            parameters
                .ciphertext_layout(layout.ciphertext_length())
                .unwrap(),
            layout
        );

        // Then iteration, indexed access, and reverse iteration agree
        let segments: Vec<_> = layout.segments().collect();
        assert_eq!(u64::try_from(segments.len()).unwrap(), expected_count);
        assert_eq!(layout.into_iter().collect(), segments);
        assert_eq!(
            layout.segments().next_back(),
            layout.segment_for_position(expected_count - 1)
        );

        // Then every segment carries consistent offsets, lengths, and
        // exactly the last position is final
        for segment in segments {
            let position = segment.position();
            assert_eq!(Some(segment), layout.segment_for_position(position));
            assert_eq!(segment.position(), position);
            assert_eq!(
                segment.plaintext_offset(),
                position * plaintext_segment_length
            );
            assert_eq!(
                segment.ciphertext_offset(),
                header_length + position * ciphertext_segment_length
            );
            assert_eq!(
                u64::try_from(segment.ciphertext_length()).unwrap(),
                u64::try_from(segment.plaintext_length()).unwrap() + overhead
            );
            assert_eq!(segment.is_final(), position + 1 == expected_count);
            assert_eq!(
                segment.kind(),
                if segment.is_final() {
                    SegmentKind::Final
                } else {
                    SegmentKind::NonFinal
                }
            );
        }

        // Then positions beyond the message resolve to no segment
        assert_eq!(layout.segment_for_position(layout.segment_count()), None);
    }
}

#[test]
fn message_layouts_enforce_segment_limit() {
    // Given the largest plaintext the specification's segment limit allows
    let parameters = Parameters::segment_4_kib();
    let plaintext_segment_length =
        u64::try_from(parameters.plaintext_segment_length()).unwrap();
    let maximum_plaintext_length = AEAD_MAX_SEGMENTS * plaintext_segment_length;

    // When its layout is calculated
    let maximum = parameters
        .plaintext_layout(maximum_plaintext_length)
        .unwrap();

    // Then the layout fills the limit exactly and ends with a final segment
    assert_eq!(maximum.segment_count(), AEAD_MAX_SEGMENTS);
    assert!(
        maximum
            .segment_for_position(AEAD_MAX_SEGMENTS - 1)
            .unwrap()
            .is_final()
    );

    // When one more byte is added on either the plaintext or ciphertext
    // side, then the segment limit rejects the layout
    assert_eq!(
        parameters.plaintext_layout(maximum_plaintext_length + 1),
        Err(Error::SegmentLimit)
    );
    assert_eq!(
        parameters.ciphertext_layout(maximum.ciphertext_length() + 1),
        Err(Error::SegmentLimit)
    );
}

#[test]
fn ciphertext_layouts_classify_short_lengths() {
    // Given ciphertext lengths around the header and minimum-segment
    // boundaries
    let parameters = Parameters::segment_4_kib();
    let header_length = u64::try_from(HEADER_LENGTH).unwrap();
    let overhead = u64::try_from(SEGMENT_OVERHEAD).unwrap();

    // When a length cannot hold a complete header,
    // then it is classified as an invalid header length
    assert!(matches!(
        parameters.ciphertext_layout(header_length - 1),
        Err(Error::InvalidHeaderLength { .. })
    ));

    // When a length holds the header but no body,
    // then it is classified as truncated
    assert_eq!(
        parameters.ciphertext_layout(header_length),
        Err(Error::Truncated)
    );

    // When the body cannot hold a minimum final segment,
    // then the segment length is rejected
    assert!(matches!(
        parameters.ciphertext_layout(header_length + overhead - 1),
        Err(Error::InvalidCiphertextLength { .. })
    ));

    // When the body holds exactly an empty final segment,
    // then the layout matches the empty message
    assert_eq!(
        parameters
            .ciphertext_layout(header_length + overhead)
            .unwrap(),
        parameters.plaintext_layout(0).unwrap()
    );
}

#[test]
fn ciphertext_layout_accepts_length_valid_empty_final_segment() {
    // Given a ciphertext length implying one full segment plus an empty
    // final segment, a framing the canonical encoder never produces
    let parameters = Parameters::segment_4_kib();
    let header_length = u64::try_from(HEADER_LENGTH).unwrap();
    let ciphertext_segment_length =
        u64::try_from(parameters.ciphertext_segment_length()).unwrap();
    let overhead = u64::try_from(SEGMENT_OVERHEAD).unwrap();
    let ciphertext_length = header_length + ciphertext_segment_length + overhead;

    // When the layout is calculated from that ciphertext length
    let layout = parameters.ciphertext_layout(ciphertext_length).unwrap();

    // Then it describes a full non-final segment and an empty final one
    assert_eq!(layout.segment_count(), 2);
    assert_eq!(
        layout.plaintext_length(),
        u64::try_from(parameters.plaintext_segment_length()).unwrap()
    );

    let first = layout.segment_for_position(0).unwrap();
    assert!(!first.is_final());
    assert_eq!(
        first.ciphertext_length(),
        parameters.ciphertext_segment_length()
    );
    assert_eq!(
        first.plaintext_length(),
        parameters.plaintext_segment_length()
    );

    let final_segment = layout.segment_for_position(1).unwrap();
    assert!(final_segment.is_final());
    assert_eq!(final_segment.plaintext_length(), 0);
    assert_eq!(final_segment.ciphertext_length(), SEGMENT_OVERHEAD);

    // Then the canonical layout for the same plaintext differs, proving
    // this framing is an accepted alternative rather than the default
    let canonical = parameters
        .plaintext_layout(layout.plaintext_length())
        .unwrap();
    assert_eq!(canonical.segment_count(), 1);
    assert_ne!(canonical.ciphertext_length(), ciphertext_length);
}

#[test]
fn segment_prefixes_classify_final_and_non_final_framing() {
    // Given the all-ones non-final prefix
    let parameters = Parameters::segment_4_kib();

    // When it is decoded
    let non_final = SegmentFraming::decode(parameters, u32::MAX.to_be_bytes()).unwrap();

    // Then it classifies as a full non-final segment
    assert_eq!(non_final.kind(), SegmentKind::NonFinal);
    assert!(!non_final.is_final());
    assert_eq!(
        non_final.ciphertext_length(),
        parameters.ciphertext_segment_length()
    );
    assert_eq!(
        non_final.plaintext_length(),
        parameters.plaintext_segment_length()
    );

    // Given final-segment lengths across the permitted range
    for encrypted_length in [
        SEGMENT_OVERHEAD,
        SEGMENT_OVERHEAD + 7,
        parameters.ciphertext_segment_length(),
    ] {
        // When the length prefix is decoded
        let prefix = u32::try_from(encrypted_length).unwrap().to_be_bytes();
        let final_segment = SegmentFraming::decode(parameters, prefix).unwrap();

        // Then it classifies as a final segment of exactly that length
        assert_eq!(final_segment.kind(), SegmentKind::Final);
        assert!(final_segment.is_final());
        assert_eq!(final_segment.ciphertext_length(), encrypted_length);
        assert_eq!(
            final_segment.plaintext_length(),
            encrypted_length - SEGMENT_OVERHEAD
        );
    }
}

#[test]
fn segment_framing_rejects_lengths_outside_final_range() {
    // Given prefixes just below the minimum and just above the maximum
    // final-segment length
    let parameters = Parameters::segment_4_kib();
    for invalid in [
        SEGMENT_OVERHEAD - 1,
        parameters.ciphertext_segment_length() + 1,
    ] {
        // When the prefix is decoded
        // Then the declared length is rejected
        let prefix = u32::try_from(invalid).unwrap().to_be_bytes();
        assert!(matches!(
            SegmentFraming::decode(parameters, prefix),
            Err(Error::InvalidCiphertextLength { .. })
        ));
    }
}

#[test]
fn segment_framing_rejects_prefix_whose_low_bits_look_valid() {
    // Given forged prefixes whose low bytes alone would decode to a
    // valid final-segment length
    let parameters = Parameters::segment_4_kib();
    for forged in [69_632_u32, 1_048_576 + 4_096] {
        // When the full 32-bit prefix is decoded
        // Then the forgery is rejected rather than truncated to its
        // low bits
        assert!(matches!(
            SegmentFraming::decode(parameters, forged.to_be_bytes()),
            Err(Error::InvalidCiphertextLength { .. })
        ));
    }
}

#[test]
fn segment_payload_offset_follows_prefix_and_nonce() {
    // Given the specification's segment framing
    // Then the payload begins directly after the length prefix and nonce
    assert_eq!(
        SEGMENT_PAYLOAD_OFFSET,
        SEGMENT_PREFIX_LENGTH + AEAD_IV_LENGTH
    );
}

#[test]
fn masked_positions_rotate_at_specification_interval() {
    const ROTATION_INTERVAL: u64 = 1 << 20;

    // Given the specification's key-rotation interval
    let parameters = Parameters::segment_4_kib();

    // Then positions mask to the interval boundary below them, up to the
    // segment limit
    assert_eq!(parameters.masked_position(ROTATION_INTERVAL - 1), 0);
    assert_eq!(
        parameters.masked_position(ROTATION_INTERVAL),
        ROTATION_INTERVAL
    );
    assert_eq!(
        parameters.masked_position(AEAD_MAX_SEGMENTS - 1),
        AEAD_MAX_SEGMENTS - ROTATION_INTERVAL
    );
}

