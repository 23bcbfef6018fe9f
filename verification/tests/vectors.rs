use fast_floe::low_level::{
    start_decryption, start_encryption_with_iv, AEAD_IV_LENGTH, ROTATION_INTERVAL,
};
use fast_floe::{decrypt, Error, Key, Parameters, Provider, SegmentKind};

const AAD: &[u8] = b"known answer";

const HEADER: &str = "00000000004000000020404142434445464748494a4b4c4d4e4f505152535455\
                      565758595a5b5c5d5e5fd6a2970acb48f0aa545dd076bd244aa020b65cc464e1\
                      700faf8fe28478a223ea";

const FIRST: &str = "ffffffff808182838485868788898a8b3291b964f8e820cb8529921347aa131e\
                     9cb565fb0eb27cee3b8fb63ddd0c5a62e5b389ebda7e02e76bca6e5d37bfc974";

const LAST: &str = "00000025909192939495969798999a9bded4dfb7eb403a61fb914fb4d02aa0a8\
                    a822719360";

const ROTATED: &str = "00000027909192939495969798999a9b1ab056c61f10c881febd9a94e87ce943\
                       6ceaad3a191e23";

fn counting<const N: usize>(first: u8) -> [u8; N] {
    let mut bytes = [first; N];
    for (index, byte) in bytes.iter_mut().enumerate() {
        *byte = first + u8::try_from(index).unwrap();
    }
    bytes
}

fn key(provider: Provider) -> Key {
    Key::from_bytes_with_provider(counting::<{ Key::LEN }>(0), provider)
}

#[test]
fn every_provider_gives_the_known_header_and_segments() {
    let plaintext = counting::<37>(0);
    let parameters = Parameters::segment_64_b();
    let layout = parameters.plaintext_layout(37).unwrap();
    for provider in Provider::COMPILED {
        let (mut state, header) =
            start_encryption_with_iv(&key(provider), AAD, parameters, counting::<32>(0x40))
                .unwrap();
        assert_eq!(header.as_bytes().to_vec(), hex::decode(HEADER).unwrap());

        let mut first = [0xee; 70];
        let written = state
            .encrypt_segment_with_nonce(
                &counting::<AEAD_IV_LENGTH>(0x80),
                &plaintext[..32],
                layout.segment_for_position(0).unwrap(),
                &mut first,
            )
            .unwrap();
        assert_eq!(written, 64);
        assert_eq!(first[..64].to_vec(), hex::decode(FIRST).unwrap());
        assert_eq!(first[64..], [0xee; 6]);

        let mut last = [0; 37];
        state
            .encrypt_segment_with_nonce(
                &counting::<AEAD_IV_LENGTH>(0x90),
                &plaintext[32..],
                layout.final_segment(),
                &mut last,
            )
            .unwrap();
        assert_eq!(last.to_vec(), hex::decode(LAST).unwrap());
    }
}

#[test]
fn every_provider_decrypts_the_known_message() {
    let mut message = hex::decode(HEADER).unwrap();
    message.extend(hex::decode(FIRST).unwrap());
    message.extend(hex::decode(LAST).unwrap());
    for provider in Provider::COMPILED {
        assert_eq!(
            decrypt(&key(provider), AAD, &message).unwrap(),
            counting::<37>(0)
        );
        assert_eq!(
            decrypt(&key(provider), b"another", &message),
            Err(Error::InvalidHeaderTag)
        );
    }
}

#[test]
fn segments_after_a_rotation_interval_use_another_key() {
    let parameters = Parameters::segment_64_b();
    let mut header_bytes = [0; fast_floe::Header::LEN];
    header_bytes.copy_from_slice(&hex::decode(HEADER).unwrap());
    let header = fast_floe::Header::from(header_bytes);
    let segment = hex::decode(ROTATED).unwrap();
    for provider in Provider::COMPILED {
        let mut state = start_decryption(&key(provider), AAD, parameters, &header).unwrap();
        assert_eq!(
            state
                .decrypt_segment_at(&segment, ROTATION_INTERVAL, SegmentKind::Final)
                .unwrap(),
            b"rotated"
        );
        assert_eq!(
            state.decrypt_segment_at(&segment, ROTATION_INTERVAL - 1, SegmentKind::Final),
            Err(Error::AuthenticationFailed)
        );
    }
}
