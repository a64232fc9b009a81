use skit::crypto::decrypt_value_with_salt;
use skit::crypto::encrypt_value_with_salt;
use skit::crypto::hash_password;
use skit::crypto::verify_password;
use skit::crypto::DecryptBuilder;
use skit::crypto::EncryptBuilder;
use skit::errors::CryptoError;

#[test]
fn test_encrypt_decrypt_round_trip() {
    let env = encrypt_value_with_salt("a password", "secret123").unwrap();
    assert!(env.starts_with("ENC~v1~"));
    assert_ne!(env, "secret123");
    let back = decrypt_value_with_salt(&env, "a password").unwrap();
    assert_eq!(back, "secret123");
}

#[test]
fn test_encrypt_is_fresh_every_call() {
    let a = encrypt_value_with_salt("pw", "same text").unwrap();
    let b = encrypt_value_with_salt("pw", "same text").unwrap();
    assert_ne!(a, b);
}

#[test]
fn test_decrypt_wrong_password_fails() {
    let env = encrypt_value_with_salt("right password", "payload").unwrap();
    let r = decrypt_value_with_salt(&env, "wrong password");
    assert!(matches!(r, Err(CryptoError::DecryptionFailed)));
}

#[test]
fn test_decrypt_detects_tampering() {
    let env = encrypt_value_with_salt("pw", "tamper me").unwrap();
    // flip one character in the base64 payload
    let mut chars: Vec<char> = env.chars().collect();
    let idx = chars.len() - 3;
    chars[idx] = if chars[idx] == 'A' { 'B' } else { 'A' };
    let tampered: String = chars.into_iter().collect();
    let r = decrypt_value_with_salt(&tampered, "pw");
    assert!(r.is_err());
}

#[test]
fn test_decrypt_rejects_missing_tag() {
    let r = decrypt_value_with_salt("not an envelope", "pw");
    assert!(matches!(r, Err(CryptoError::InvalidFormat)));
    let r2 = decrypt_value_with_salt("ENC~v1~%%%not base64%%%", "pw");
    assert!(matches!(r2, Err(CryptoError::InvalidFormat)));
    let r3 = decrypt_value_with_salt("ENC~v1~AAAA", "pw");
    assert!(matches!(r3, Err(CryptoError::InvalidFormat)));
}

#[test]
fn test_hash_verify_round_trip() {
    let h = hash_password("some password").unwrap();
    assert!(!h.is_empty());
    assert_ne!(h, "some password");
    assert!(verify_password("some password", &h).is_ok());
    let r = verify_password("another password", &h);
    assert!(matches!(r, Err(CryptoError::PasswordVerificationFailed)));
}

#[test]
fn test_verify_rejects_malformed_hash() {
    let r = verify_password("pw", "not a hash");
    assert!(matches!(r, Err(CryptoError::InvalidFormat)));
}

#[test]
fn test_builders_mirror_direct_calls() {
    let env = EncryptBuilder::new().password("pw").plaintext("via builder").encrypt().unwrap();
    let back = DecryptBuilder::new().password("pw").ciphertext(&env).decrypt().unwrap();
    assert_eq!(back, "via builder");
}

#[test]
fn test_builders_require_both_parts() {
    let r = EncryptBuilder::new().plaintext("no password").encrypt();
    assert!(matches!(r, Err(CryptoError::EncryptionFailed)));
    let r2 = DecryptBuilder::new().password("pw").decrypt();
    assert!(matches!(r2, Err(CryptoError::DecryptionFailed)));
}
