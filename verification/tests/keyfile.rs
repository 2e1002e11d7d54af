use lock::keyfile::{
    generate_aes_gcm_key, new_random_key, plain_keyfile, protected_keyfile, read_lock_key, KeyError,
};
use lock::{key_bytes, Aes256GcmKey};

fn sample_key() -> Aes256GcmKey {
    let mut bytes = [0u8; 32];
    for (i, b) in bytes.iter_mut().enumerate() {
        *b = (i as u8).wrapping_mul(37).wrapping_add(5);
    }
    Aes256GcmKey::from_bytes(bytes)
}

#[test]
fn plain_keyfile_is_lower_hex_and_newline() {
    let key = Aes256GcmKey::from_bytes([0xAB; 32]);
    let file = plain_keyfile(&key);
    let mut expected = "ab".repeat(32).into_bytes();
    expected.push(b'\n');
    assert_eq!(file, expected);
}

#[test]
fn plain_keyfile_round_trip() {
    let key = sample_key();
    let file = plain_keyfile(&key);
    let read = read_lock_key(&file, None).unwrap();
    assert_eq!(key_bytes(&read), key_bytes(&key));
    // a passphrase is ignored for plain key files
    let read = read_lock_key(&file, Some(b"whatever")).unwrap();
    assert_eq!(key_bytes(&read), key_bytes(&key));
}

#[test]
fn plain_key_accepts_upper_case_and_surrounding_whitespace() {
    let text = format!("\t  {}\r\n\u{3000}", "0F".repeat(32));
    let key = read_lock_key(text.as_bytes(), None).unwrap();
    assert_eq!(key_bytes(&key), &[0x0F; 32]);
}

#[test]
fn plain_key_errors() {
    assert_eq!(read_lock_key(&[0xff, 0xfe, b'a'], None).err(), Some(KeyError::NotUtf8));
    assert_eq!(read_lock_key(b"abcd\n", None).err(), Some(KeyError::InvalidLength(4)));
    assert_eq!(read_lock_key(b"", None).err(), Some(KeyError::InvalidLength(0)));
    let bad = format!("{}zz", "00".repeat(31));
    assert_eq!(read_lock_key(bad.as_bytes(), None).err(), Some(KeyError::InvalidHex));
    // a non-ASCII character counts by its bytes
    let wide = format!("{}é", "0".repeat(62));
    assert_eq!(read_lock_key(wide.as_bytes(), None).err(), Some(KeyError::InvalidHex));
}

#[test]
fn protected_keyfile_needs_a_passphrase() {
    let mut raw = b"LKEY1".to_vec();
    raw.extend_from_slice(&[0u8; 60]);
    assert_eq!(read_lock_key(&raw, None).err(), Some(KeyError::NeedsPassphrase));
    assert_eq!(read_lock_key(b"LKEY1short", Some(b"pw")).err(), Some(KeyError::KeyfileTooShort));
}

#[test]
fn protected_keyfile_round_trip_and_layout() {
    let key = sample_key();
    let salt = [7u8; 16];
    let nonce = [9u8; 12];
    let file = protected_keyfile(b"correct horse", &salt, &nonce, &key).unwrap();
    assert_eq!(file.len(), 5 + 16 + 12 + 32 + 16);
    assert_eq!(&file[0..5], b"LKEY1");
    assert_eq!(&file[5..21], &salt);
    assert_eq!(&file[21..33], &nonce);
    // the wrapped key is not the key itself
    assert_ne!(&file[33..65], &key_bytes(&key)[..]);
    let read = read_lock_key(&file, Some(b"correct horse")).unwrap();
    assert_eq!(key_bytes(&read), key_bytes(&key));
}

#[test]
fn protected_keyfile_wrong_passphrase() {
    let key = sample_key();
    let file = protected_keyfile(b"right", &[1u8; 16], &[2u8; 12], &key).unwrap();
    assert_eq!(read_lock_key(&file, Some(b"wrong")).err(), Some(KeyError::WrongPassphrase));
}

#[test]
fn protected_keyfile_tampered() {
    let key = sample_key();
    let mut file = protected_keyfile(b"pw", &[3u8; 16], &[4u8; 12], &key).unwrap();
    let last = file.len() - 1;
    file[last] ^= 1;
    assert_eq!(read_lock_key(&file, Some(b"pw")).err(), Some(KeyError::WrongPassphrase));
}

#[test]
fn generate_plain_key_file() {
    let key = new_random_key().unwrap();
    let file = generate_aes_gcm_key(&key, None).unwrap();
    assert_eq!(file.len(), 65);
    assert_eq!(key_bytes(&read_lock_key(&file, None).unwrap()), key_bytes(&key));
}

#[test]
fn generate_rejects_mismatched_passphrases() {
    let key = sample_key();
    assert_eq!(
        generate_aes_gcm_key(&key, Some((b"one", b"two"))).err(),
        Some(KeyError::PassphraseMismatch)
    );
}

#[test]
fn generate_protected_key_file() {
    let key = sample_key();
    let file = generate_aes_gcm_key(&key, Some((b"secret", b"secret"))).unwrap();
    assert_eq!(&file[0..5], b"LKEY1");
    assert_eq!(key_bytes(&read_lock_key(&file, Some(b"secret")).unwrap()), key_bytes(&key));
}

#[test]
fn random_keys_differ() {
    let a = new_random_key().unwrap();
    let b = new_random_key().unwrap();
    assert_ne!(key_bytes(&a), key_bytes(&b));
}

#[test]
fn key_debug_text_is_redacted() {
    let key = sample_key();
    assert_eq!(key.debug_text(), "Aes256GcmKey(REDACTED)");
}
