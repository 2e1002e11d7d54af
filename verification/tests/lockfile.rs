use aes_gcm::aead::{Aead, KeyInit, Payload};
use aes_gcm::{Aes256Gcm, Key, Nonce};
use lock::lockfile::{decrypt_file, encrypt_file, inspect_header, seal_file, FileError, InspectReport};
use lock::Aes256GcmKey;

fn key() -> Aes256GcmKey {
    Aes256GcmKey::from_bytes([0x42; 32])
}

#[test]
fn sealed_file_layout_matches_aes_gcm() {
    let nonce = [0x11u8; 12];
    let data = seal_file(&key(), &nonce, b"pixels").unwrap();
    let mut aad = b"LOCK1".to_vec();
    aad.extend_from_slice(&nonce);
    let cipher = Aes256Gcm::new(Key::<Aes256Gcm>::from_slice(&[0x42; 32]));
    let ct = cipher
        .encrypt(Nonce::from_slice(&nonce), Payload { msg: b"pixels", aad: &aad })
        .unwrap();
    let mut expected = aad.clone();
    expected.extend_from_slice(&ct);
    assert_eq!(data, expected);
    assert_eq!(data.len(), 5 + 12 + 6 + 16);
}

#[test]
fn encrypt_then_decrypt_round_trip() {
    let pt = b"an image, supposedly".to_vec();
    let data = encrypt_file(&key(), &pt).unwrap();
    assert_eq!(&data[0..5], b"LOCK1");
    assert_ne!(&data[17..17 + pt.len()], &pt[..]);
    assert_eq!(decrypt_file(&key(), &data).unwrap(), pt);
    let empty = encrypt_file(&key(), b"").unwrap();
    assert_eq!(empty.len(), 33);
    assert_eq!(decrypt_file(&key(), &empty).unwrap(), Vec::<u8>::new());
}

#[test]
fn decrypt_errors() {
    assert_eq!(decrypt_file(&key(), &[0u8; 32]).err(), Some(FileError::TooShort));
    let mut data = seal_file(&key(), &[1u8; 12], b"x").unwrap();
    data[0] = b'X';
    assert_eq!(decrypt_file(&key(), &data).err(), Some(FileError::BadMagic));
    let mut data = seal_file(&key(), &[1u8; 12], b"x").unwrap();
    data[10] ^= 0x80; // the nonce is authenticated too
    assert_eq!(decrypt_file(&key(), &data).err(), Some(FileError::AuthenticationFailed));
    let data = seal_file(&key(), &[1u8; 12], b"x").unwrap();
    let other = Aes256GcmKey::from_bytes([0x43; 32]);
    assert_eq!(decrypt_file(&other, &data).err(), Some(FileError::AuthenticationFailed));
}

#[test]
fn inspect_reports_headers() {
    assert_eq!(inspect_header(b"LOCK"), InspectReport::TooShort);
    let data = seal_file(&key(), &[0xAB; 12], b"x").unwrap();
    assert_eq!(
        inspect_header(&data),
        InspectReport::Encrypted { header_len: 17, nonce_hex: Some(b"ab".repeat(12)) }
    );
    assert_eq!(
        inspect_header(b"LOCK1abc"),
        InspectReport::Encrypted { header_len: 17, nonce_hex: None }
    );
    let mut keyfile = b"LKEY1".to_vec();
    keyfile.extend_from_slice(&[0x01; 16]);
    keyfile.extend_from_slice(&[0xFE; 12]);
    assert_eq!(
        inspect_header(&keyfile),
        InspectReport::Keyfile {
            salt_hex: Some(b"01".repeat(16)),
            nonce_hex: Some(b"fe".repeat(12)),
        }
    );
    assert_eq!(
        inspect_header(b"LKEY1xyz"),
        InspectReport::Keyfile { salt_hex: None, nonce_hex: None }
    );
    assert_eq!(inspect_header(b"hello world"), InspectReport::Unknown);
}

#[test]
fn inspection_ignores_what_follows_the_header() {
    let a = seal_file(&key(), &[0x05; 12], b"first secret").unwrap();
    let b = seal_file(&key(), &[0x05; 12], b"a different and longer secret").unwrap();
    assert_ne!(a, b);
    assert_eq!(inspect_header(&a), inspect_header(&b));
}

#[test]
fn encrypted_file_is_33_bytes_longer() {
    for n in [0usize, 1, 100] {
        let pt = vec![7u8; n];
        assert_eq!(encrypt_file(&key(), &pt).unwrap().len(), n + 33);
    }
}
