use aether_core::bytes::ByteReader;
use aether_core::crypto::{
    accept_drawn, compute_verification_tag, decrypt_block, decrypt_metadata, derive_block_nonce, derive_key,
    encrypt_block, encrypt_metadata, generate_nonce, generate_salt, validate_argon2_params,
    validate_encryption_password, BlockCryptor, CipherId, EncryptionHeader,
    ENCRYPTION_HEADER_SIZE, HEADER_VERSION, KEY_SIZE, MAX_ARGON2_M_COST, MIN_ARGON2_M_COST,
    MIN_ARGON2_P_COST, MIN_ARGON2_T_COST, NONCE_SIZE, SALT_SIZE, TAG_SIZE,
};
use aether_core::format::VERIFICATION_TAG_SIZE;
use aether_core::AetherError;

fn test_key() -> [u8; KEY_SIZE] {
    let mut key = [0u8; KEY_SIZE];
    for (i, b) in key.iter_mut().enumerate() {
        *b = i as u8;
    }
    key
}

fn test_nonce() -> [u8; NONCE_SIZE] {
    [1, 2, 3, 4, 5, 6, 7, 8, 9, 10, 11, 12]
}

#[test]
fn aes_gcm_roundtrip() {
    let key = test_key();
    let nonce = test_nonce();
    let data = b"Hello, encrypted world!";

    let encrypted = encrypt_block(CipherId::Aes256Gcm, &key, &nonce, 0, data).unwrap();
    assert_ne!(&encrypted[NONCE_SIZE..], data.as_slice());

    let decrypted = decrypt_block(CipherId::Aes256Gcm, &key, &nonce, 0, &encrypted).unwrap();
    assert_eq!(decrypted, data);
}

#[test]
fn chacha20_roundtrip() {
    let key = test_key();
    let nonce = test_nonce();
    let data = b"Hello, encrypted world!";

    let encrypted = encrypt_block(CipherId::ChaCha20Poly1305, &key, &nonce, 0, data).unwrap();
    assert_ne!(&encrypted[NONCE_SIZE..], data.as_slice());

    let decrypted =
        decrypt_block(CipherId::ChaCha20Poly1305, &key, &nonce, 0, &encrypted).unwrap();
    assert_eq!(decrypted, data);
}

#[test]
fn per_block_nonces_are_unique() {
    let nonce = test_nonce();

    let n0 = derive_block_nonce(&nonce, 0);
    let n1 = derive_block_nonce(&nonce, 1);
    let n2 = derive_block_nonce(&nonce, 2);
    assert_ne!(n0, n1);
    assert_ne!(n1, n2);
    assert_ne!(n0, n2);
}

#[test]
fn per_block_nonces_are_deterministic() {
    let nonce = test_nonce();
    let n1a = derive_block_nonce(&nonce, 42);
    let n1b = derive_block_nonce(&nonce, 42);
    assert_eq!(n1a, n1b);
}

#[test]
fn per_block_nonces_differ_across_all_bytes() {
    // BLAKE3-based derivation should produce nonces that differ across
    // all 12 bytes, not just the last 4.
    let nonce = test_nonce();
    let n0 = derive_block_nonce(&nonce, 0);
    let n1 = derive_block_nonce(&nonce, 1);
    // At least some of the first 8 bytes should differ (with overwhelming probability)
    assert_ne!(&n0[..8], &n1[..8]);
}

#[test]
fn wrong_key_fails() {
    let key = test_key();
    let nonce = test_nonce();
    let data = b"secret data";

    let encrypted = encrypt_block(CipherId::Aes256Gcm, &key, &nonce, 0, data).unwrap();

    let mut wrong_key = test_key();
    wrong_key[0] ^= 0xFF;
    let result = decrypt_block(CipherId::Aes256Gcm, &wrong_key, &nonce, 0, &encrypted);
    assert!(result.is_err());
}

#[test]
fn tampered_ciphertext_fails() {
    let key = test_key();
    let nonce = test_nonce();
    let data = b"integrity test";

    let mut encrypted = encrypt_block(CipherId::Aes256Gcm, &key, &nonce, 0, data).unwrap();
    // Flip a bit in the ciphertext (not the nonce)
    if encrypted.len() > NONCE_SIZE + 2 {
        encrypted[NONCE_SIZE + 1] ^= 0x01;
    }
    let result = decrypt_block(CipherId::Aes256Gcm, &key, &nonce, 0, &encrypted);
    assert!(result.is_err());
}

#[test]
fn tampered_nonce_detected() {
    let key = test_key();
    let nonce = test_nonce();
    let data = b"nonce tamper test";

    let mut encrypted = encrypt_block(CipherId::Aes256Gcm, &key, &nonce, 0, data).unwrap();
    // Flip a bit in the stored nonce
    encrypted[0] ^= 0x01;
    let result = decrypt_block(CipherId::Aes256Gcm, &key, &nonce, 0, &encrypted);
    assert!(result.is_err());
}

#[test]
fn key_derivation_deterministic() {
    let password = b"test-password-123";
    let salt = [42u8; SALT_SIZE];

    // Use params at minimum allowed thresholds for test speed
    let key1 = derive_key(
        password,
        &salt,
        MIN_ARGON2_M_COST,
        MIN_ARGON2_T_COST,
        MIN_ARGON2_P_COST,
    )
    .unwrap();
    let key2 = derive_key(
        password,
        &salt,
        MIN_ARGON2_M_COST,
        MIN_ARGON2_T_COST,
        MIN_ARGON2_P_COST,
    )
    .unwrap();
    assert_eq!(key1.as_bytes(), key2.as_bytes());
}

#[test]
fn different_passwords_different_keys() {
    let salt = [42u8; SALT_SIZE];
    let key1 = derive_key(
        b"password1",
        &salt,
        MIN_ARGON2_M_COST,
        MIN_ARGON2_T_COST,
        MIN_ARGON2_P_COST,
    )
    .unwrap();
    let key2 = derive_key(
        b"password2",
        &salt,
        MIN_ARGON2_M_COST,
        MIN_ARGON2_T_COST,
        MIN_ARGON2_P_COST,
    )
    .unwrap();
    assert_ne!(key1.as_bytes(), key2.as_bytes());
}

#[test]
fn encryption_header_roundtrip() {
    let header = EncryptionHeader {
        version: HEADER_VERSION,
        cipher_id: CipherId::ChaCha20Poly1305,
        salt: [0xAA; SALT_SIZE],
        m_cost: 65536,
        t_cost: 3,
        p_cost: 4,
        master_nonce: [0xBB; NONCE_SIZE],
        verification_tag: [0xCC; VERIFICATION_TAG_SIZE],
    };

    let mut buf = Vec::new();
    header.write_to(&mut buf).unwrap();
    assert_eq!(buf.len(), ENCRYPTION_HEADER_SIZE);

    let parsed = EncryptionHeader::read_from(&mut ByteReader::new(&buf)).unwrap();
    assert_eq!(parsed.version, HEADER_VERSION);
    assert_eq!(parsed.cipher_id, CipherId::ChaCha20Poly1305);
    assert_eq!(parsed.salt, [0xAA; SALT_SIZE]);
    assert_eq!(parsed.m_cost, 65536);
    assert_eq!(parsed.t_cost, 3);
    assert_eq!(parsed.p_cost, 4);
    assert_eq!(parsed.master_nonce, [0xBB; NONCE_SIZE]);
    assert_eq!(
        parsed.verification_tag,
        [0xCC; VERIFICATION_TAG_SIZE]
    );
}

#[test]
fn generate_salt_is_not_zero() {
    let salt = generate_salt().unwrap();
    assert!(salt.iter().any(|&b| b != 0));
}

#[test]
fn generate_nonce_fills_all_bytes() {
    // All 12 bytes should have entropy (statistically, not all zero)
    let nonce = generate_nonce().unwrap();
    assert!(nonce.iter().any(|&b| b != 0));
    // Bytes 8..12 should also have entropy
    assert!(
        nonce[8..12].iter().any(|&b| b != 0) || {
            // Extremely unlikely (1 in 2^32) but technically possible
            // Run a second time to be sure
            let nonce2 = generate_nonce().unwrap();
            nonce2[8..12].iter().any(|&b| b != 0)
        }
    );
}

#[test]
fn empty_plaintext_roundtrip() {
    let key = test_key();
    let nonce = test_nonce();
    let encrypted = encrypt_block(CipherId::Aes256Gcm, &key, &nonce, 0, b"").unwrap();
    let decrypted = decrypt_block(CipherId::Aes256Gcm, &key, &nonce, 0, &encrypted).unwrap();
    assert!(decrypted.is_empty());
}

#[test]
fn large_data_roundtrip() {
    let key = test_key();
    let nonce = test_nonce();
    let data: Vec<u8> = (0..100_000).map(|i| (i % 256) as u8).collect();

    for cipher in [CipherId::Aes256Gcm, CipherId::ChaCha20Poly1305] {
        let encrypted = encrypt_block(cipher, &key, &nonce, 42, &data).unwrap();
        let decrypted = decrypt_block(cipher, &key, &nonce, 42, &encrypted).unwrap();
        assert_eq!(decrypted, data);
    }
}

#[test]
fn cross_cipher_decrypt_fails() {
    let key = test_key();
    let nonce = test_nonce();
    let data = b"cross-cipher test";

    // Encrypt with AES, decrypt with ChaCha - must fail authentication
    let encrypted = encrypt_block(CipherId::Aes256Gcm, &key, &nonce, 0, data).unwrap();
    let result = decrypt_block(CipherId::ChaCha20Poly1305, &key, &nonce, 0, &encrypted);
    assert!(result.is_err());
}

#[test]
fn wrong_block_id_decrypt_fails() {
    let key = test_key();
    let nonce = test_nonce();
    let data = b"block reorder test";

    // Encrypt at block_id=5, decrypt with block_id=6 - nonce mismatch
    let encrypted = encrypt_block(CipherId::Aes256Gcm, &key, &nonce, 5, data).unwrap();
    let result = decrypt_block(CipherId::Aes256Gcm, &key, &nonce, 6, &encrypted);
    assert!(result.is_err());
}

#[test]
fn argon2_m_cost_too_high_rejected() {
    let salt = [42u8; SALT_SIZE];
    let result = derive_key(
        b"password-for-test",
        &salt,
        MAX_ARGON2_M_COST + 1,
        MIN_ARGON2_T_COST,
        MIN_ARGON2_P_COST,
    );
    assert!(result.is_err());
}

#[test]
fn argon2_m_cost_too_low_rejected() {
    let salt = [42u8; SALT_SIZE];
    let result = derive_key(
        b"password-for-test",
        &salt,
        MIN_ARGON2_M_COST - 1,
        MIN_ARGON2_T_COST,
        MIN_ARGON2_P_COST,
    );
    assert!(result.is_err());
}

#[test]
fn argon2_t_cost_too_low_rejected() {
    let salt = [42u8; SALT_SIZE];
    let result = derive_key(
        b"password-for-test",
        &salt,
        MIN_ARGON2_M_COST,
        MIN_ARGON2_T_COST - 1,
        MIN_ARGON2_P_COST,
    );
    assert!(result.is_err());
}

#[test]
fn unknown_cipher_id_rejected() {
    let result = CipherId::from_u8(255);
    assert!(result.is_err());
}

#[test]
fn derive_block_nonce_u32_max() {
    let nonce = test_nonce();
    // u32::MAX should produce a valid, unique nonce
    let result = derive_block_nonce(&nonce, u32::MAX);
    // Must differ from block 0
    assert_ne!(result, derive_block_nonce(&nonce, 0));
    // Must be deterministic
    assert_eq!(result, derive_block_nonce(&nonce, u32::MAX));
}

#[test]
fn decrypt_block_too_small_rejected() {
    let key = test_key();
    let nonce = test_nonce();
    let tiny = vec![0u8; NONCE_SIZE + TAG_SIZE - 1];
    let result = decrypt_block(CipherId::Aes256Gcm, &key, &nonce, 0, &tiny);
    assert!(result.is_err());
}

#[test]
fn header_read_rejects_low_m_cost() {
    let mut buf = Vec::new();
    buf.push(HEADER_VERSION); // version
    buf.push(0u8); // cipher_id = AES
    buf.extend_from_slice(&[0xAA; SALT_SIZE]); // salt
    buf.extend_from_slice(&1024u32.to_le_bytes()); // m_cost below minimum
    buf.extend_from_slice(&3u32.to_le_bytes()); // t_cost
    buf.extend_from_slice(&4u32.to_le_bytes()); // p_cost
    buf.extend_from_slice(&[0xBB; NONCE_SIZE]); // nonce
    buf.extend_from_slice(&[0x00; VERIFICATION_TAG_SIZE]); // tag

    let result = EncryptionHeader::read_from(&mut ByteReader::new(&buf));
    assert!(result.is_err());
}

#[test]
fn header_read_rejects_bad_version() {
    let mut buf = Vec::new();
    buf.push(99u8); // bad version
    buf.push(0u8); // cipher_id
    buf.extend_from_slice(&[0xAA; SALT_SIZE]);
    buf.extend_from_slice(&MIN_ARGON2_M_COST.to_le_bytes());
    buf.extend_from_slice(&MIN_ARGON2_T_COST.to_le_bytes());
    buf.extend_from_slice(&MIN_ARGON2_P_COST.to_le_bytes());
    buf.extend_from_slice(&[0xBB; NONCE_SIZE]);
    buf.extend_from_slice(&[0x00; VERIFICATION_TAG_SIZE]); // tag

    let result = EncryptionHeader::read_from(&mut ByteReader::new(&buf));
    assert!(result.is_err());
}

#[test]
fn derived_key_debug_is_redacted() {
    let salt = [42u8; SALT_SIZE];
    let key = derive_key(
        b"password",
        &salt,
        MIN_ARGON2_M_COST,
        MIN_ARGON2_T_COST,
        MIN_ARGON2_P_COST,
    )
    .unwrap();
    let debug_str = key.debug_text();
    assert_eq!(debug_str, "DerivedKey([REDACTED])");
    assert!(!debug_str.contains("42"));
}

#[test]
fn encryption_header_debug_is_redacted() {
    let header = EncryptionHeader {
        version: HEADER_VERSION,
        cipher_id: CipherId::Aes256Gcm,
        salt: [0xAA; SALT_SIZE],
        m_cost: 65536,
        t_cost: 3,
        p_cost: 4,
        master_nonce: [0xBB; NONCE_SIZE],
        verification_tag: [0xDD; VERIFICATION_TAG_SIZE],
    };
    let debug_str = header.debug_text();
    assert!(debug_str.contains("[REDACTED]"));
    assert!(!debug_str.contains("170")); // 0xAA = 170
    assert!(!debug_str.contains("187")); // 0xBB = 187
}

#[test]
fn validate_encryption_password_rejects_empty() {
    assert!(validate_encryption_password(b"").is_err());
}

#[test]
fn validate_encryption_password_rejects_short() {
    assert!(validate_encryption_password(b"short").is_err());
}

#[test]
fn validate_encryption_password_accepts_minimum() {
    assert!(validate_encryption_password(b"12345678").is_ok());
}

#[test]
fn block_cryptor_roundtrip_aes() {
    let key = test_key();
    let nonce = test_nonce();
    let data = b"BlockCryptor AES roundtrip";

    let cryptor = BlockCryptor::new(CipherId::Aes256Gcm, &key, nonce);
    let encrypted = cryptor.encrypt(0, data).unwrap();
    let decrypted = cryptor.decrypt(0, &encrypted).unwrap();
    assert_eq!(decrypted, data);
}

#[test]
fn block_cryptor_roundtrip_chacha() {
    let key = test_key();
    let nonce = test_nonce();
    let data = b"BlockCryptor ChaCha roundtrip";

    let cryptor = BlockCryptor::new(CipherId::ChaCha20Poly1305, &key, nonce);
    let encrypted = cryptor.encrypt(0, data).unwrap();
    let decrypted = cryptor.decrypt(0, &encrypted).unwrap();
    assert_eq!(decrypted, data);
}

#[test]
fn block_cryptor_matches_standalone_functions() {
    let key = test_key();
    let nonce = test_nonce();
    let data = b"consistency test";

    let cryptor = BlockCryptor::new(CipherId::Aes256Gcm, &key, nonce);

    let enc_standalone = encrypt_block(CipherId::Aes256Gcm, &key, &nonce, 42, data).unwrap();
    let enc_cryptor = cryptor.encrypt(42, data).unwrap();
    assert_eq!(enc_standalone, enc_cryptor);

    let dec = cryptor.decrypt(42, &enc_standalone).unwrap();
    assert_eq!(dec, data);
}

#[test]
fn verification_tag_tells_passwords_apart() {
    let salt = [7u8; SALT_SIZE];
    let cheap = (MIN_ARGON2_M_COST, MIN_ARGON2_T_COST, MIN_ARGON2_P_COST);
    let right = derive_key(b"right password", &salt, cheap.0, cheap.1, cheap.2).unwrap();
    let wrong = derive_key(b"wrong password", &salt, cheap.0, cheap.1, cheap.2).unwrap();
    let header = EncryptionHeader {
        version: HEADER_VERSION,
        cipher_id: CipherId::Aes256Gcm,
        salt,
        m_cost: cheap.0,
        t_cost: cheap.1,
        p_cost: cheap.2,
        master_nonce: test_nonce(),
        verification_tag: compute_verification_tag(&right),
    };
    assert!(header.verify_password(&right).is_ok());
    assert!(matches!(
        header.verify_password(&wrong),
        Err(AetherError::PasswordVerificationFailed)
    ));
    // The tag is not the key.
    assert_ne!(&header.verification_tag, right.as_bytes());
}

#[test]
fn metadata_roundtrip() {
    for cipher in [CipherId::Aes256Gcm, CipherId::ChaCha20Poly1305] {
        let cryptor = BlockCryptor::new(cipher, &test_key(), test_nonce());
        assert_eq!(cryptor.cipher_id(), cipher);
        assert_eq!(cryptor.master_nonce(), &test_nonce());
        let encrypted = encrypt_metadata(&cryptor, b"file table").unwrap();
        assert_eq!(encrypted.len(), NONCE_SIZE + 10 + TAG_SIZE);
        assert_eq!(decrypt_metadata(&cryptor, &encrypted).unwrap(), b"file table");
        assert!(matches!(
            cryptor.decrypt(0, &encrypted),
            Err(AetherError::NonceMismatch { block_id: 0 })
        ));
    }
}

#[test]
fn argon2_bounds_are_named() {
    assert_eq!(
        validate_argon2_params(16_383, 2, 1).unwrap_err().message(),
        "Encryption error: Argon2 m_cost 16383 below minimum of 16384 KiB"
    );
    assert!(validate_argon2_params(16_384, 2, 1).is_ok());
    assert!(validate_argon2_params(1_048_576, 16, 16).is_ok());
    assert!(validate_argon2_params(1_048_577, 16, 16).is_err());
    assert!(validate_argon2_params(65_536, 17, 4).is_err());
    assert!(validate_argon2_params(65_536, 3, 0).is_err());
    assert!(validate_argon2_params(65_536, 3, 17).is_err());
}

#[test]
fn forged_blocks_name_the_cipher() {
    for (cipher, name) in [
        (CipherId::Aes256Gcm, "AES-GCM"),
        (CipherId::ChaCha20Poly1305, "ChaCha20-Poly1305"),
    ] {
        let mut encrypted =
            encrypt_block(cipher, &test_key(), &test_nonce(), 3, b"payload").unwrap();
        let last = encrypted.len() - 1;
        encrypted[last] ^= 1;
        let error = decrypt_block(cipher, &test_key(), &test_nonce(), 3, &encrypted).unwrap_err();
        assert!(error.message().contains(name));
    }
}

#[test]
fn missing_randomness_is_an_error() {
    assert_eq!(accept_drawn(Some([5u8; 12])).unwrap(), [5u8; 12]);
    assert_eq!(
        accept_drawn::<32>(None).unwrap_err().message(),
        "Encryption error: OS random number generator failed"
    );
}
