use archivist::crypto::aead::{decrypt, encrypt};
use archivist::crypto::hash::{sha256_hex, to_hex};
use archivist::crypto::kdf::{derive_master_key, generate_salt};

#[test]
fn sha256_hex_of_abc() {
    assert_eq!(
        sha256_hex(b"abc"),
        "ba7816bf8f01cfea414140de5dae2223b00361a396177a9cb410ff61f20015ad"
    );
}

#[test]
fn sha256_hex_of_empty_input() {
    assert_eq!(
        sha256_hex(b""),
        "e3b0c44298fc1c149afbf4c8996fb92427ae41e4649b934ca495991b7852b855"
    );
}

#[test]
fn to_hex_is_lowercase_two_digits_per_byte() {
    assert_eq!(to_hex(&[0x00, 0x0f, 0xa0, 0xff]), "000fa0ff");
    assert_eq!(to_hex(&[]), "");
}

#[test]
fn encrypt_then_decrypt_roundtrip() {
    let key = [7u8; 32];
    let (ct, nonce) = encrypt(&key, b"hello world", b"ad");
    assert_eq!(ct.len(), 11 + 16);
    let pt = decrypt(&key, &ct, &nonce, b"ad").unwrap();
    assert_eq!(pt, b"hello world");
}

#[test]
fn decrypt_refuses_wrong_key_ad_or_tampering() {
    let key = [7u8; 32];
    let (ct, nonce) = encrypt(&key, b"secret", b"ad");
    assert!(decrypt(&[8u8; 32], &ct, &nonce, b"ad").is_err());
    assert!(decrypt(&key, &ct, &nonce, b"other").is_err());
    let mut bad = ct.clone();
    bad[0] ^= 1;
    assert!(decrypt(&key, &bad, &nonce, b"ad").is_err());
    assert!(decrypt(&key, &ct[..10], &nonce, b"ad").is_err());
}

#[test]
fn encrypt_uses_fresh_nonces() {
    let key = [1u8; 32];
    let (c1, n1) = encrypt(&key, b"same", b"");
    let (c2, n2) = encrypt(&key, b"same", b"");
    assert_ne!(n1, n2);
    assert_ne!(c1, c2);
}

#[test]
fn master_key_is_deterministic_in_password_and_salt() {
    let salt = [3u8; 16];
    let k1 = derive_master_key("pw", &salt);
    let k2 = derive_master_key("pw", &salt);
    let k3 = derive_master_key("pw2", &salt);
    let k4 = derive_master_key("pw", &[4u8; 16]);
    assert_eq!(k1, k2);
    assert_ne!(k1, k3);
    assert_ne!(k1, k4);
}

#[test]
fn master_key_accepts_the_shortest_salt() {
    assert_ne!(derive_master_key("pw", &[0u8; 8]), derive_master_key("pw", &[0u8; 9]));
}

#[test]
fn salts_are_random() {
    assert_ne!(generate_salt(), generate_salt());
}
