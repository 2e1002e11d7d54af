use lock::actions::{
    decrypt_skips, encrypt_action, is_protected_keyfile, keygen_allowed, load_key_with_retries,
    needs_passphrase, passphrase_prompt, EncryptAction, KeyAttempt,
};
use lock::keyfile::{plain_keyfile, KeyError};
use lock::{key_bytes, Aes256GcmKey};

#[test]
fn per_file_actions() {
    assert_eq!(encrypt_action(false, false), EncryptAction::Write);
    assert_eq!(encrypt_action(true, false), EncryptAction::Skip);
    assert_eq!(encrypt_action(true, true), EncryptAction::Replace);
    assert!(decrypt_skips(true));
    assert!(!decrypt_skips(false));
    assert!(keygen_allowed(false, false));
    assert!(!keygen_allowed(true, false));
    assert!(keygen_allowed(true, true));
}

#[test]
fn passphrase_is_needed_for_protected_files_or_on_request() {
    assert!(is_protected_keyfile(Some(b"LKEY1....")));
    assert!(!is_protected_keyfile(Some(b"00ff")));
    assert!(!is_protected_keyfile(None));
    assert!(needs_passphrase(Some(b"LKEY1"), false));
    assert!(needs_passphrase(None, true));
    assert!(!needs_passphrase(Some(b"abc"), false));
    assert_eq!(passphrase_prompt(1), "Keyfile passphrase: ");
    assert_eq!(passphrase_prompt(2), "Incorrect password. Try again: ");
}

#[test]
fn key_loading_attempts() {
    let key = Aes256GcmKey::from_bytes([5; 32]);
    let file = plain_keyfile(&key);
    match load_key_with_retries(Some(&file), 1, None) {
        KeyAttempt::Loaded(k) => assert_eq!(key_bytes(&k), key_bytes(&key)),
        _ => panic!("expected the key"),
    }
    assert!(matches!(
        load_key_with_retries(Some(b"bad"), 1, None),
        KeyAttempt::Failed(KeyError::InvalidLength(3))
    ));
    assert!(matches!(
        load_key_with_retries(None, 1, None),
        KeyAttempt::Failed(KeyError::Unreadable)
    ));
    assert!(matches!(load_key_with_retries(Some(b"bad"), 1, Some(b"p")), KeyAttempt::Retry(2)));
    assert!(matches!(load_key_with_retries(Some(b"bad"), 2, Some(b"p")), KeyAttempt::Retry(3)));
    assert!(matches!(load_key_with_retries(None, 3, Some(b"p")), KeyAttempt::GiveUp));
}
