use fast_floe::{decrypt, encrypt, Error, Key, Parameters, Provider};

#[test]
fn implicit_keys_resolve_only_for_single_provider_builds() {
    let key = Key::from_bytes([0x21; Key::LEN]);
    if let Some(provider) = Provider::build_default() {
        assert_eq!(key.provider(), Ok(provider));
        assert_eq!(Key::generate().unwrap().provider(), Ok(provider));
        let ciphertext = encrypt(
            &key,
            b"implicit provider",
            Parameters::segment_4_kib(),
            b"message",
        )
        .unwrap();
        assert_eq!(
            decrypt(&key, b"implicit provider", &ciphertext).unwrap(),
            b"message"
        );
    } else {
        assert_eq!(key.provider(), Err(Error::ProviderSelectionRequired));
        assert!(matches!(
            Key::generate(),
            Err(Error::ProviderSelectionRequired)
        ));
    }
}

#[test]
fn generated_keys_have_required_size() {
    for provider in Provider::COMPILED {
        assert_eq!(
            Key::generate_with_provider(provider)
                .unwrap()
                .as_bytes()
                .len(),
            Key::LEN
        );
    }
}

