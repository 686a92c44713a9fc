use pim_core::crypto::{CryptoError, CryptoService, KeyCache};

#[test]
fn test_encryption_decryption() {
    let master_password = "test_password_123";
    let salt = CryptoService::generate_salt();
    let plaintext = "Hello, World!";

    let encrypted = CryptoService::encrypt_with_master_password(master_password, &salt, plaintext).unwrap();
    let decrypted = CryptoService::decrypt_with_master_password(master_password, &salt, &encrypted).unwrap();

    assert_eq!(plaintext, decrypted);
}

#[test]
fn test_password_generation() {
    let password = CryptoService::generate_password(16, true, true, true, true);
    assert_eq!(password.len(), 16);
}

#[test]
fn test_password_strength() {
    assert!(CryptoService::check_password_strength("weak") < 50);
    assert!(CryptoService::check_password_strength("StrongPassword123!") > 80);
}

#[test]
fn strength_scores_are_exact() {
    assert_eq!(CryptoService::check_password_strength(""), 0);
    assert_eq!(CryptoService::check_password_strength("weak"), 15);
    assert_eq!(CryptoService::check_password_strength("abcdefgh"), 40);
    assert_eq!(CryptoService::check_password_strength("StrongPassword123!"), 100);
    assert_eq!(CryptoService::check_password_strength("ABCDEFGHIJKL"), 50);
}

#[test]
fn derived_key_is_sha256_of_password_and_salt() {
    let key = CryptoService::derive_key_from_password("abc", &[]);
    assert_eq!(key.len(), 32);
    assert_eq!(key[0], 0xba);
    assert_eq!(key[31], 0xad);
    let other = CryptoService::derive_key_from_password("abc", &[1]);
    assert_ne!(key, other);
}

#[test]
fn salts_and_nonces_have_fixed_lengths() {
    assert_eq!(CryptoService::generate_salt().len(), 16);
    assert_eq!(CryptoService::generate_nonce().len(), 12);
}

#[test]
fn envelope_with_fixed_nonce_starts_with_nonce() {
    let key = [7u8; 32];
    let nonce = [0u8; 12];
    let env = CryptoService::encrypt_with_key_nonce(&key, &nonce, "secret").unwrap();
    assert!(env.starts_with("AAAAAAAAAAAAAAAA"));
    assert_ne!(env, "secret");
    assert_eq!(CryptoService::decrypt_with_key(&key, &env).unwrap(), "secret");
}

#[test]
fn wrong_key_length_is_refused() {
    assert_eq!(CryptoService::encrypt_with_key(&[1u8; 16], "x"), Err(CryptoError::InvalidKeyLength));
    assert_eq!(CryptoService::decrypt_with_key(&[1u8; 31], "AAAA"), Err(CryptoError::InvalidKeyLength));
}

#[test]
fn bad_envelopes_are_refused() {
    let key = [3u8; 32];
    assert_eq!(CryptoService::decrypt_with_key(&key, "not base64!"), Err(CryptoError::Base64DecodeFailed));
    assert_eq!(CryptoService::decrypt_with_key(&key, "AAAA"), Err(CryptoError::CiphertextTooShort));
    let env = CryptoService::encrypt_with_key(&key, "hello").unwrap();
    assert_eq!(CryptoService::decrypt_with_key(&[4u8; 32], &env), Err(CryptoError::DecryptionFailed));
}

#[test]
fn master_password_check() {
    let salt = [9u8; 16];
    let env = CryptoService::encrypt_with_master_password("right", &salt, "probe").unwrap();
    assert_eq!(CryptoService::verify_master_password("right", &salt, &env), Ok(true));
    assert_eq!(CryptoService::verify_master_password("wrong", &salt, &env), Ok(false));
    assert_eq!(CryptoService::verify_master_password("right", &salt, "%%%"), Ok(false));
}

#[test]
fn session_key_cache() {
    let mut cache = KeyCache::new();
    let salt = [1u8; 16];
    assert_eq!(CryptoService::get_cached_key(&cache, "s1"), None);
    assert_eq!(CryptoService::encrypt_with_cached_key(&cache, "s1", "x"), Err(CryptoError::NoCachedKey));
    CryptoService::cache_master_key(&mut cache, "s1", "pw", &salt);
    CryptoService::cache_master_key(&mut cache, "s2", "other", &salt);
    let key = CryptoService::get_cached_key(&cache, "s1").unwrap();
    assert_eq!(key, CryptoService::derive_key_from_password("pw", &salt));
    let env = CryptoService::encrypt_with_cached_key(&cache, "s1", "note").unwrap();
    assert_eq!(CryptoService::decrypt_with_cached_key(&cache, "s1", &env).unwrap(), "note");
    assert_eq!(CryptoService::decrypt_with_master_password("pw", &salt, &env).unwrap(), "note");
    CryptoService::clear_cached_key(&mut cache, "s1");
    assert_eq!(CryptoService::get_cached_key(&cache, "s1"), None);
    assert!(CryptoService::get_cached_key(&cache, "s2").is_some());
    CryptoService::clear_all_cached_keys(&mut cache);
    assert_eq!(CryptoService::get_cached_key(&cache, "s2"), None);
    assert_eq!(CryptoService::decrypt_with_cached_key(&cache, "s2", &env), Err(CryptoError::NoCachedKey));
}

#[test]
fn generated_passwords_use_selected_classes() {
    let digits = CryptoService::generate_password(40, false, false, true, false);
    assert_eq!(digits.len(), 40);
    assert!(digits.chars().all(|c| c.is_ascii_digit()));
    let fallback = CryptoService::generate_password(30, false, false, false, false);
    assert!(fallback.chars().all(|c| c.is_ascii_alphanumeric()));
    let symbols = CryptoService::generate_password(30, false, false, false, true);
    assert!(symbols.chars().all(|c| "!@#$%^&*()_+-=[]{}|;:,.<>?".contains(c)));
    assert_eq!(CryptoService::generate_password(0, true, true, true, true), "");
}

#[test]
fn error_messages() {
    assert_eq!(CryptoError::NoCachedKey.message(), "No cached key found for session");
    assert_eq!(CryptoError::InvalidKeyLength.message(), "Invalid key length. Expected 32 bytes for AES-256");
}

#[test]
fn envelopes_open_under_the_same_key_only() {
    let key = CryptoService::derive_key_from_password("pw", b"salt");
    let env = CryptoService::encrypt_with_key(&key, "こんにちは").unwrap();
    assert_eq!(CryptoService::decrypt_with_key(&key, &env).unwrap(), "こんにちは");
    assert_eq!(CryptoService::verify_master_password("pw", b"salt", &env), Ok(true));
    assert_eq!(CryptoService::verify_master_password("px", b"salt", &env), Ok(false));
}
