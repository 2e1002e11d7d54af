//! Per-step decisions of the commands: whether a file is written, skipped
//! or replaced, whether a key file may be created, and the passphrase
//! prompts of key loading.
use vstd::prelude::*;
use crate::bytes::{has_prefix, starts_with};
use crate::constants::{keyfile_magic_seq, lemma_magic_arrays, KEYFILE_MAGIC};
use crate::key::Aes256GcmKey;
use crate::keyfile::{key_file_key, opt_view, read_lock_key, KeyError};

verus! {

/// What an encryption run does with one planned file.
#[derive(Debug, Clone, Copy, PartialEq, Eq)]
pub enum EncryptAction {
    /// The destination exists and is kept.
    Skip,
    /// The destination exists and is removed, then written.
    Replace,
    /// The destination is written.
    Write,
}

/// Existing `.lock` files are skipped unless `overwrite` is set, in which
/// case they are replaced.
pub fn encrypt_action(dst_exists: bool, overwrite: bool) -> (res: EncryptAction)
    ensures
        !dst_exists ==> res == EncryptAction::Write,
        dst_exists && overwrite ==> res == EncryptAction::Replace,
        dst_exists && !overwrite ==> res == EncryptAction::Skip,
{
    if dst_exists {
        if overwrite {
            EncryptAction::Replace
        } else {
            EncryptAction::Skip
        }
    } else {
        EncryptAction::Write
    }
}

/// A decryption run never overwrites: a file whose destination exists is
/// skipped.
pub fn decrypt_skips(dst_exists: bool) -> (res: bool)
    ensures
        res == dst_exists,
{
    dst_exists
}

/// A key file is created only when it does not exist yet, or when `force`
/// is set.
pub fn keygen_allowed(out_exists: bool, force: bool) -> (res: bool)
    ensures
        res == (!out_exists || force),
{
    !out_exists || force
}

/// The number of passphrase attempts before key loading gives up.
pub const MAX_PASSPHRASE_ATTEMPTS: u32 = 3;

/// A key file is protected when it could be read and starts with `LKEY1`.
pub fn is_protected_keyfile(raw: Option<&[u8]>) -> (res: bool)
    ensures
        res == (raw matches Some(b) && starts_with(b@, keyfile_magic_seq())),
{
    proof {
        lemma_magic_arrays();
    }
    match raw {
        Some(b) => has_prefix(b, &KEYFILE_MAGIC),
        None => false,
    }
}

/// A passphrase is asked for when the user asks for the prompt or the key
/// file is protected.
pub fn needs_passphrase(raw: Option<&[u8]>, passphrase_prompt: bool) -> (res: bool)
    ensures
        res == (passphrase_prompt || (raw matches Some(b) && starts_with(b@, keyfile_magic_seq()))),
{
    passphrase_prompt || is_protected_keyfile(raw)
}

/// The prompt of the given passphrase attempt.
pub fn passphrase_prompt(attempt: u32) -> (res: &'static str)
    ensures
        attempt == 1 ==> res@ == "Keyfile passphrase: "@,
        attempt != 1 ==> res@ == "Incorrect password. Try again: "@,
{
    if attempt == 1 {
        "Keyfile passphrase: "
    } else {
        "Incorrect password. Try again: "
    }
}

/// The outcome of one attempt at loading the key.
pub enum KeyAttempt {
    /// The key.
    Loaded(Aes256GcmKey),
    /// Reading without a passphrase failed: the error is final.
    Failed(KeyError),
    /// The passphrase was wrong: prompt again, for this attempt.
    Retry(u32),
    /// The third passphrase was wrong too: give up.
    GiveUp,
}

/// What a key file holds, when it could be read.
pub open spec fn loaded_key(raw: Option<Seq<u8>>, passphrase: Option<Seq<u8>>) -> Result<Seq<u8>, KeyError> {
    match raw {
        Some(b) => key_file_key(b, passphrase),
        None => Err(KeyError::Unreadable),
    }
}

/// Loads the key from the contents of the key file (`None` when it could
/// not be read), at the given attempt. With a passphrase, a failure leads
/// to another prompt, up to three attempts in all; without one, a failure
/// is final.
pub fn load_key_with_retries(raw: Option<&[u8]>, attempt: u32, passphrase: Option<&[u8]>) -> (res: KeyAttempt)
    requires
        1 <= attempt <= MAX_PASSPHRASE_ATTEMPTS,
    ensures
        match loaded_key(opt_view(raw), opt_view(passphrase)) {
            Ok(k) => res matches KeyAttempt::Loaded(key) && key.view() == k,
            Err(e) => {
                &&& passphrase is None ==> (res matches KeyAttempt::Failed(x) && x == e)
                &&& passphrase is Some && attempt < MAX_PASSPHRASE_ATTEMPTS ==> (res matches KeyAttempt::Retry(n) && n == attempt + 1)
                &&& passphrase is Some && attempt == MAX_PASSPHRASE_ATTEMPTS ==> res matches KeyAttempt::GiveUp
            },
        },
{
    let r = match raw {
        Some(b) => read_lock_key(b, passphrase),
        None => Err(KeyError::Unreadable),
    };
    match r {
        Ok(k) => KeyAttempt::Loaded(k),
        Err(e) => {
            if passphrase.is_none() {
                KeyAttempt::Failed(e)
            } else if attempt < MAX_PASSPHRASE_ATTEMPTS {
                KeyAttempt::Retry(attempt + 1)
            } else {
                KeyAttempt::GiveUp
            }
        },
    }
}

} // verus!
