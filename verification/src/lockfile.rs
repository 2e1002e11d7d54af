//! Encrypted files: `MAGIC(5) | NONCE(12) | CIPHERTEXT + TAG(16)`, and the
//! inspection of file headers.
use vstd::prelude::*;
use crate::bytes::{append_bytes, has_prefix, starts_with, to_vec};
use crate::constants::{keyfile_magic_seq, lemma_magic_arrays, magic_seq, KEYFILE_MAGIC, MAGIC};
use crate::crypto::{
    aes256gcm_decrypt, aes256gcm_encrypt, aes256gcm_open, aes256gcm_seal, aes_gcm_max_len,
    hex_encode, hex_lower, os_random_bytes,
};
use crate::key::{key_bytes, Aes256GcmKey};

verus! {

/// Why a file could not be encrypted or decrypted.
#[derive(Debug, Clone, Copy, PartialEq, Eq)]
pub enum FileError {
    /// Shorter than a header and a tag: not a valid `.lock` file.
    TooShort,
    /// Does not start with `LOCK1`.
    BadMagic,
    /// The ciphertext or its tag does not authenticate under the key.
    AuthenticationFailed,
    /// The plaintext is too long for AES-GCM (over 2^36 bytes).
    EncryptionFailed,
    /// The operating system's random number generator failed.
    RandomFailed,
}

/// The associated data of an encrypted file: `MAGIC | nonce`.
pub open spec fn file_aad(nonce: Seq<u8>) -> Seq<u8> {
    magic_seq() + nonce
}

/// The encrypted file for `plaintext` under `key` and `nonce`.
pub open spec fn sealed_file(key: Seq<u8>, nonce: Seq<u8>, plaintext: Seq<u8>) -> Seq<u8> {
    file_aad(nonce) + aes256gcm_seal(key, nonce, plaintext, file_aad(nonce))
}

/// What decrypting the file `data` under `key` gives.
pub open spec fn opened_file(key: Seq<u8>, data: Seq<u8>) -> Result<Seq<u8>, FileError> {
    if data.len() < 33 {
        Err(FileError::TooShort)
    } else if data.subrange(0, 5) != magic_seq() {
        Err(FileError::BadMagic)
    } else {
        let nonce = data.subrange(5, 17);
        match aes256gcm_open(key, nonce, data.subrange(17, data.len() as int), file_aad(nonce)) {
            Some(pt) => Ok(pt),
            None => Err(FileError::AuthenticationFailed),
        }
    }
}

/// `MAGIC | nonce`.
fn header_bytes(nonce: &[u8]) -> (res: Vec<u8>)
    ensures
        res@ == file_aad(nonce@),
{
    proof {
        lemma_magic_arrays();
    }
    let mut h: Vec<u8> = Vec::new();
    append_bytes(&mut h, &MAGIC);
    append_bytes(&mut h, nonce);
    h
}

/// Encrypts `plaintext` under `key` with the given 12-byte nonce into the
/// contents of an encrypted file, `MAGIC | NONCE | CIPHERTEXT + TAG`, the
/// header being the associated data. Decrypting the result with the same
/// key gives the plaintext back.
pub fn seal_file(key: &Aes256GcmKey, nonce: &[u8], plaintext: &[u8]) -> (res: Result<Vec<u8>, FileError>)
    requires
        nonce@.len() == 12,
    ensures
        res is Ok <==> plaintext@.len() <= aes_gcm_max_len(),
        match res {
            Ok(data) => data@ == sealed_file(key.view(), nonce@, plaintext@) && data@.len()
                == plaintext@.len() + 33 && opened_file(
                key.view(),
                data@,
            ) == Ok::<Seq<u8>, FileError>(plaintext@),
            Err(e) => e == FileError::EncryptionFailed,
        },
{
    key.lemma_len();
    let aad = header_bytes(nonce);
    let ct = match aes256gcm_encrypt(key_bytes(key).as_slice(), nonce, plaintext, aad.as_slice()) {
        Some(ct) => ct,
        None => return Err(FileError::EncryptionFailed),
    };
    let mut out = to_vec(aad.as_slice());
    append_bytes(&mut out, ct.as_slice());
    proof {
        let d = out@;
        assert(d.subrange(0, 5) =~= magic_seq());
        assert(d.subrange(5, 17) =~= nonce@);
        assert(d.subrange(17, d.len() as int) =~= ct@);
    }
    Ok(out)
}

/// Encrypts `plaintext` under `key` with a fresh nonce from the operating
/// system's random number generator.
pub fn encrypt_file(key: &Aes256GcmKey, plaintext: &[u8]) -> (res: Result<Vec<u8>, FileError>)
    ensures
        match res {
            Ok(data) => (exists|nonce: Seq<u8>|
                nonce.len() == 12 && data@ == #[trigger] sealed_file(key.view(), nonce, plaintext@))
                && data@.len() == plaintext@.len() + 33 && opened_file(key.view(), data@) == Ok::<Seq<u8>, FileError>(plaintext@),
            Err(e) => e == FileError::RandomFailed || (e == FileError::EncryptionFailed
                && plaintext@.len() > aes_gcm_max_len()),
        },
{
    let nonce = match os_random_bytes(12) {
        Some(n) => n,
        None => return Err(FileError::RandomFailed),
    };
    seal_file(key, nonce.as_slice(), plaintext)
}

/// Decrypts the contents of an encrypted file under `key`, checking its
/// length, its magic and its authentication tag.
pub fn decrypt_file(key: &Aes256GcmKey, data: &[u8]) -> (res: Result<Vec<u8>, FileError>)
    ensures
        match res {
            Ok(pt) => opened_file(key.view(), data@) == Ok::<Seq<u8>, FileError>(pt@),
            Err(e) => opened_file(key.view(), data@) == Err::<Seq<u8>, FileError>(e),
        },
{
    key.lemma_len();
    proof {
        lemma_magic_arrays();
    }
    if data.len() < 33 {
        return Err(FileError::TooShort);
    }
    if !has_prefix(data, &MAGIC) {
        return Err(FileError::BadMagic);
    }
    let nonce = &data[5..17];
    let ct = &data[17..data.len()];
    let aad = header_bytes(nonce);
    match aes256gcm_decrypt(key_bytes(key).as_slice(), nonce, ct, aad.as_slice()) {
        Some(pt) => Ok(pt),
        None => Err(FileError::AuthenticationFailed),
    }
}

/// What inspecting a file reveals of its header, without decrypting.
#[derive(Debug, Clone, PartialEq, Eq)]
pub enum InspectReport {
    /// Shorter than a magic.
    TooShort,
    /// An encrypted file (`LOCK1`): its header length and the hex of its
    /// nonce, when the file is long enough to hold one.
    Encrypted { header_len: usize, nonce_hex: Option<Vec<u8>> },
    /// A protected key file (`LKEY1`): the hex of its salt and nonce, when
    /// the file is long enough to hold them.
    Keyfile { salt_hex: Option<Vec<u8>>, nonce_hex: Option<Vec<u8>> },
    /// Neither.
    Unknown,
}

/// The view of an optional hex string.
pub open spec fn opt_bytes(o: Option<Vec<u8>>) -> Option<Seq<u8>> {
    match o {
        Some(v) => Some(v@),
        None => None,
    }
}

/// The inspection report of `data`, in views: a tag (0 too short,
/// 1 encrypted, 2 key file, 3 unknown), then the two optional hex strings.
pub open spec fn inspection(data: Seq<u8>) -> (int, Option<Seq<u8>>, Option<Seq<u8>>) {
    if data.len() < 5 {
        (0, None, None)
    } else if starts_with(data, magic_seq()) {
        (1, if data.len() >= 17 {
            Some(hex_lower(data.subrange(5, 17)))
        } else {
            None
        }, None)
    } else if starts_with(data, keyfile_magic_seq()) {
        if data.len() >= 33 {
            (2, Some(hex_lower(data.subrange(5, 21))), Some(hex_lower(data.subrange(21, 33))))
        } else {
            (2, None, None)
        }
    } else {
        (3, None, None)
    }
}

impl InspectReport {
    /// The report in views, in the shape of [`inspection`].
    pub open spec fn view(&self) -> (int, Option<Seq<u8>>, Option<Seq<u8>>) {
        match self {
            InspectReport::TooShort => (0, None, None),
            InspectReport::Encrypted { header_len, nonce_hex } => (1, opt_bytes(*nonce_hex), None),
            InspectReport::Keyfile { salt_hex, nonce_hex } => (2, opt_bytes(*salt_hex), opt_bytes(*nonce_hex)),
            InspectReport::Unknown => (3, None, None),
        }
    }
}

/// Reads the header of an encrypted file or a key file: its version,
/// algorithm, salt and nonce, never its secret contents.
pub fn inspect_header(data: &[u8]) -> (res: InspectReport)
    ensures
        res.view() == inspection(data@),
        res matches InspectReport::Encrypted { header_len, .. } ==> header_len == 17,
{
    proof {
        lemma_magic_arrays();
    }
    if data.len() < 5 {
        return InspectReport::TooShort;
    }
    if has_prefix(data, &MAGIC) {
        let nonce_hex = if data.len() >= 17 {
            Some(hex_encode(&data[5..17]))
        } else {
            None
        };
        InspectReport::Encrypted { header_len: 17, nonce_hex }
    } else if has_prefix(data, &KEYFILE_MAGIC) {
        if data.len() >= 33 {
            let salt_hex = hex_encode(&data[5..21]);
            let nonce_hex = hex_encode(&data[21..33]);
            InspectReport::Keyfile { salt_hex: Some(salt_hex), nonce_hex: Some(nonce_hex) }
        } else {
            InspectReport::Keyfile { salt_hex: None, nonce_hex: None }
        }
    } else {
        InspectReport::Unknown
    }
}

/// Inspection reads the header only: two files of at least 33 bytes that
/// agree on their first 33 bytes are reported alike, whatever follows.
pub proof fn lemma_inspect_header_only(a: Seq<u8>, b: Seq<u8>)
    requires
        a.len() >= 33,
        b.len() >= 33,
        a.subrange(0, 33) == b.subrange(0, 33),
    ensures
        inspection(a) == inspection(b),
{
    assert(a.subrange(0, 5) =~= a.subrange(0, 33).subrange(0, 5));
    assert(b.subrange(0, 5) =~= b.subrange(0, 33).subrange(0, 5));
    assert(a.subrange(5, 17) =~= a.subrange(0, 33).subrange(5, 17));
    assert(b.subrange(5, 17) =~= b.subrange(0, 33).subrange(5, 17));
    assert(a.subrange(5, 21) =~= a.subrange(0, 33).subrange(5, 21));
    assert(b.subrange(5, 21) =~= b.subrange(0, 33).subrange(5, 21));
    assert(a.subrange(21, 33) =~= a.subrange(0, 33).subrange(21, 33));
    assert(b.subrange(21, 33) =~= b.subrange(0, 33).subrange(21, 33));
}

/// Inspecting an encrypted file reports it as encrypted, with the hex of
/// the nonce it was sealed with.
pub proof fn lemma_inspect_sealed_file(key: Seq<u8>, nonce: Seq<u8>, plaintext: Seq<u8>)
    requires
        nonce.len() == 12,
    ensures
        inspection(sealed_file(key, nonce, plaintext)) == (1int, Some(hex_lower(nonce)), None::<Seq<u8>>),
{
    let d = sealed_file(key, nonce, plaintext);
    assert(d.subrange(0, 5) =~= magic_seq());
    assert(d.subrange(5, 17) =~= nonce);
}

/// Inspecting a protected key file reports it as a key file, with the hex
/// of its salt and nonce.
pub proof fn lemma_inspect_protected_keyfile(passphrase: Seq<u8>, salt: Seq<u8>, nonce: Seq<u8>, key: Seq<u8>)
    requires
        salt.len() == 16,
        nonce.len() == 12,
    ensures
        inspection(crate::keyfile::protected_keyfile_spec(passphrase, salt, nonce, key)) == (
            2int,
            Some(hex_lower(salt)),
            Some(hex_lower(nonce)),
        ),
{
    let d = crate::keyfile::protected_keyfile_spec(passphrase, salt, nonce, key);
    assert(d.subrange(0, 5) =~= keyfile_magic_seq());
    assert(d.subrange(0, 5)[1] != magic_seq()[1]);
    assert(d.subrange(5, 21) =~= salt);
    assert(d.subrange(21, 33) =~= nonce);
}


/// The bytes of an encrypted file: `LOCK1` (4C 4F 43 4B 31), the nonce, then
/// AES-256-GCM of the plaintext under the key and the nonce, with the
/// 17-byte header `LOCK1 | nonce` as associated data.
pub proof fn lemma_sealed_file_bytes(key: Seq<u8>, nonce: Seq<u8>, plaintext: Seq<u8>)
    ensures
        sealed_file(key, nonce, plaintext) == seq![0x4Cu8, 0x4Fu8, 0x43u8, 0x4Bu8, 0x31u8] + nonce
            + aes256gcm_seal(key, nonce, plaintext, seq![0x4Cu8, 0x4Fu8, 0x43u8, 0x4Bu8, 0x31u8] + nonce),
{
    assert(magic_seq() =~= seq![0x4Cu8, 0x4Fu8, 0x43u8, 0x4Bu8, 0x31u8]);
}

/// Decrypting a file: one shorter than 33 bytes (header and tag) is too
/// short; one that does not start with `LOCK1` has a bad magic; otherwise
/// the ciphertext `data[17..]` is opened under the key with the nonce
/// `data[5..17]` and the header bytes `data[0..17]` as associated data, and
/// a failed authentication is an error.
pub proof fn lemma_opened_file_reads_header(key: Seq<u8>, data: Seq<u8>)
    ensures
        opened_file(key, data) == if data.len() < 33 {
            Err::<Seq<u8>, FileError>(FileError::TooShort)
        } else if data.subrange(0, 5) != seq![0x4Cu8, 0x4Fu8, 0x43u8, 0x4Bu8, 0x31u8] {
            Err(FileError::BadMagic)
        } else {
            match aes256gcm_open(key, data.subrange(5, 17), data.subrange(17, data.len() as int), data.subrange(0, 17)) {
                Some(pt) => Ok(pt),
                None => Err(FileError::AuthenticationFailed),
            }
        },
{
    assert(magic_seq() =~= seq![0x4Cu8, 0x4Fu8, 0x43u8, 0x4Bu8, 0x31u8]);
    if data.len() >= 33 && data.subrange(0, 5) == magic_seq() {
        assert(magic_seq() + data.subrange(5, 17) =~= data.subrange(0, 17));
    }
}

} // verus!
