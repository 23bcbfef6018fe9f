use fast_floe::low_level::{start_decryption, start_encryption};
use fast_floe::online::{Decryptor, Encryptor};
use fast_floe::{decrypt, encrypt, Key, Parameters, Provider};

fn test_key() -> Key {
    Key::from_bytes_with_provider([0; Key::LEN], Provider::COMPILED[0])
}

#[test]
fn explicit_provider_preserved_by_keys_and_states() {
    // Given a key explicitly bound to each compiled provider
    for provider in Provider::COMPILED {
        let key = Key::from_bytes_with_provider([0x32; Key::LEN], provider);

        // Then the key, its clones, and generated keys keep that binding
        assert_eq!(key.provider(), Ok(provider));
        assert_eq!(key.clone().provider(), Ok(provider));
        assert_eq!(
            Key::generate_with_provider(provider).unwrap().provider(),
            Ok(provider)
        );

        // When every state type is constructed from the key
        // Then each reports the same provider, including through shared
        // contexts and their forks
        let parameters = Parameters::segment_4_kib();
        let encryptor = Encryptor::new(&key, b"provider identity", parameters).unwrap();
        assert_eq!(encryptor.provider(), provider);
        let header = *encryptor.header();

        let decryptor = Decryptor::new(&key, b"provider identity", &header).unwrap();
        assert_eq!(decryptor.provider(), provider);

        let (encryption, header) =
            start_encryption(&key, b"provider identity", parameters).unwrap();
        assert_eq!(encryption.provider(), provider);
        let encryption = encryption.into_shared();
        assert_eq!(encryption.provider(), provider);
        assert_eq!(encryption.fork().provider(), provider);

        let decryption = start_decryption(&key, b"provider identity", parameters, &header).unwrap();
        assert_eq!(decryption.provider(), provider);
        let decryption = decryption.into_shared();
        assert_eq!(decryption.provider(), provider);
        assert_eq!(decryption.fork().provider(), provider);
    }
}

#[test]
fn verify_providers_interoperate() {
    // Given a message encrypted by each compiled provider
    let plaintext = b"provider-independent FLOE ciphertext";
    for encrypt_provider in Provider::COMPILED {
        let encrypt_key = Key::from_bytes_with_provider([0x43; Key::LEN], encrypt_provider);
        let ciphertext = encrypt(
            &encrypt_key,
            b"cross-provider",
            Parameters::segment_4_kib(),
            plaintext,
        )
        .unwrap();

        // When every compiled provider decrypts the same ciphertext
        for decrypt_provider in Provider::COMPILED {
            let decrypt_key = Key::from_bytes_with_provider([0x43; Key::LEN], decrypt_provider);

            // Then each recovers the plaintext
            assert_eq!(
                decrypt(&decrypt_key, b"cross-provider", &ciphertext).unwrap(),
                plaintext,
                "{} encryption did not interoperate with {} decryption",
                encrypt_provider.name(),
                decrypt_provider.name()
            );
        }
    }
}
