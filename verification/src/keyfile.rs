//! Key files: reading a key from the bytes of a key file (plain hex or
//! passphrase-protected), and producing key files.
use vstd::prelude::*;
use vstd::utf8::valid_utf8;
use zeroize::Zeroize;
use crate::bytes::{append_bytes, bytes_eq, has_prefix, starts_with, to_vec};
use crate::constants::{keyfile_magic_seq, lemma_magic_arrays, KEYFILE_MAGIC};
use crate::crypto::{
    aes256gcm_decrypt, aes256gcm_encrypt, aes256gcm_open, aes256gcm_seal, argon2_hash, hex_digit, hex_value,
    argon2_hash_password_into, hex_decode, hex_decoded, hex_encode, hex_lower, is_hex_digit,
    os_random_bytes, string_from_utf8, KdfAlgorithm, KdfVersion,
};
use crate::key::{key_bytes, zeroizing_deref, Aes256GcmKey};

verus! {

/// Argon2id memory cost of protected key files: 64 MiB.
pub const ARGON2_M_COST: u32 = 65536;

/// Argon2id time cost of protected key files.
pub const ARGON2_T_COST: u32 = 3;

/// Argon2id parallelism of protected key files.
pub const ARGON2_P_COST: u32 = 1;

/// Why a key could not be read or a key file produced.
#[derive(Debug, Clone, Copy, PartialEq, Eq)]
pub enum KeyError {
    /// The key file could not be read.
    Unreadable,
    /// The key file is passphrase-protected and no passphrase was given.
    NeedsPassphrase,
    /// A protected key file shorter than its header and tag.
    KeyfileTooShort,
    /// Argon2id refused the passphrase (longer than `u32::MAX` bytes).
    KeyDerivation,
    /// The protected key did not decrypt: wrong passphrase or corrupted file.
    WrongPassphrase,
    /// The protected key decrypted to this many bytes instead of 32.
    DecryptedKeyLength(usize),
    /// A plain key file that is not UTF-8.
    NotUtf8,
    /// A plain key file whose trimmed text has this many bytes instead of 64.
    InvalidLength(usize),
    /// A plain key file with a character other than 0-9, a-f, A-F.
    InvalidHex,
    /// The two passphrases given when protecting a key differ.
    PassphraseMismatch,
    /// The operating system's random number generator failed.
    RandomFailed,
    /// Encrypting the key under the passphrase failed.
    EncryptionFailed,
}

/// Length of the UTF-8 encoding of a white-space character (the Unicode
/// `White_Space` property, as `char::is_whitespace` has it) at the start of
/// `s`, or 0.
pub open spec fn ws_prefix_len(s: Seq<u8>) -> int {
    if s.len() >= 1 && ((9 <= s[0] <= 13) || s[0] == 32) {
        1
    } else if s.len() >= 2 && s[0] == 0xC2 && (s[1] == 0x85 || s[1] == 0xA0) {
        2
    } else if s.len() >= 3 && ws3(s[0], s[1], s[2]) {
        3
    } else {
        0
    }
}

/// The three-byte encodings of white space: U+1680, U+2000 to U+200A,
/// U+2028, U+2029, U+202F, U+205F and U+3000.
pub open spec fn ws3(a: u8, b: u8, c: u8) -> bool {
    ||| (a == 0xE1 && b == 0x9A && c == 0x80)
    ||| (a == 0xE2 && b == 0x80 && ((0x80 <= c <= 0x8A) || c == 0xA8 || c == 0xA9 || c == 0xAF))
    ||| (a == 0xE2 && b == 0x81 && c == 0x9F)
    ||| (a == 0xE3 && b == 0x80 && c == 0x80)
}

/// Length of the UTF-8 encoding of a white-space character at the end of
/// `s`, or 0.
pub open spec fn ws_suffix_len(s: Seq<u8>) -> int {
    let n = s.len() as int;
    if n >= 1 && ((9 <= s[n - 1] <= 13) || s[n - 1] == 32) {
        1
    } else if n >= 2 && s[n - 2] == 0xC2 && (s[n - 1] == 0x85 || s[n - 1] == 0xA0) {
        2
    } else if n >= 3 && ws3(s[n - 3], s[n - 2], s[n - 1]) {
        3
    } else {
        0
    }
}

/// `s` without leading white space.
pub open spec fn trim_start_ws(s: Seq<u8>) -> Seq<u8>
    decreases s.len(),
{
    let k = ws_prefix_len(s);
    if k > 0 {
        trim_start_ws(s.subrange(k, s.len() as int))
    } else {
        s
    }
}

/// `s` without trailing white space.
pub open spec fn trim_end_ws(s: Seq<u8>) -> Seq<u8>
    decreases s.len(),
{
    let k = ws_suffix_len(s);
    if k > 0 {
        trim_end_ws(s.subrange(0, s.len() - k))
    } else {
        s
    }
}

/// `str::trim` on the bytes of a valid UTF-8 text.
pub open spec fn trim_ws(s: Seq<u8>) -> Seq<u8> {
    trim_end_ws(trim_start_ws(s))
}

/// Every byte is a hexadecimal digit.
pub open spec fn all_hex(s: Seq<u8>) -> bool {
    forall|i: int| 0 <= i < s.len() ==> is_hex_digit(#[trigger] s[i])
}

/// The key held by a plain key file: the file is UTF-8 text whose trimmed
/// form is exactly 64 hexadecimal digits.
pub open spec fn plain_key(raw: Seq<u8>) -> Result<Seq<u8>, KeyError> {
    if !valid_utf8(raw) {
        Err(KeyError::NotUtf8)
    } else {
        let s = trim_ws(raw);
        if s.len() != 64 {
            Err(KeyError::InvalidLength(s.len() as usize))
        } else if !all_hex(s) {
            Err(KeyError::InvalidHex)
        } else {
            Ok(hex_decoded(s).unwrap())
        }
    }
}

/// The wrapping key of a protected key file: Argon2id (version 0x13, 64 MiB,
/// 3 passes, 1 lane) of the passphrase and the salt.
pub open spec fn wrap_key(passphrase: Seq<u8>, salt: Seq<u8>) -> Seq<u8> {
    argon2_hash(
        KdfAlgorithm::Argon2id,
        KdfVersion::V0x13,
        ARGON2_M_COST,
        ARGON2_T_COST,
        ARGON2_P_COST,
        passphrase,
        salt,
    )
}

/// The key held by a protected key file
/// `LKEY1 | SALT(16) | NONCE(12) | AES-256-GCM(key, AAD = header) | TAG(16)`.
pub open spec fn protected_key(raw: Seq<u8>, passphrase: Option<Seq<u8>>) -> Result<Seq<u8>, KeyError> {
    match passphrase {
        None => Err(KeyError::NeedsPassphrase),
        Some(pw) => if raw.len() < 49 {
            Err(KeyError::KeyfileTooShort)
        } else if pw.len() > u32::MAX {
            Err(KeyError::KeyDerivation)
        } else {
            let salt = raw.subrange(5, 21);
            let nonce = raw.subrange(21, 33);
            let aad = keyfile_magic_seq() + salt + nonce;
            match aes256gcm_open(wrap_key(pw, salt), nonce, raw.subrange(33, raw.len() as int), aad) {
                None => Err(KeyError::WrongPassphrase),
                Some(pt) => if pt.len() != 32 {
                    Err(KeyError::DecryptedKeyLength(pt.len() as usize))
                } else {
                    Ok(pt)
                },
            }
        },
    }
}

/// The key that a key file holds: protected when it starts with `LKEY1`,
/// plain hex otherwise.
pub open spec fn key_file_key(raw: Seq<u8>, passphrase: Option<Seq<u8>>) -> Result<Seq<u8>, KeyError> {
    if starts_with(raw, keyfile_magic_seq()) {
        protected_key(raw, passphrase)
    } else {
        plain_key(raw)
    }
}

/// The contents of a plain key file for `key`: its lower-case hex and a
/// newline.
pub open spec fn plain_keyfile_spec(key: Seq<u8>) -> Seq<u8> {
    hex_lower(key) + seq![10u8]
}

/// The contents of a protected key file for `key` under `passphrase`,
/// `salt` and `nonce`.
pub open spec fn protected_keyfile_spec(passphrase: Seq<u8>, salt: Seq<u8>, nonce: Seq<u8>, key: Seq<u8>) -> Seq<u8> {
    let header = keyfile_magic_seq() + salt + nonce;
    header + aes256gcm_seal(wrap_key(passphrase, salt), nonce, key, header)
}

/// The view of an optional passphrase.
pub open spec fn opt_view(p: Option<&[u8]>) -> Option<Seq<u8>> {
    match p {
        Some(s) => Some(s@),
        None => None,
    }
}

/// Wraps `Zeroize::zeroize` for `Vec<u8>`: overwrites the elements with
/// zeros and clears the vector.
#[verifier::external_body]
fn zeroize_vec(v: &mut Vec<u8>)
    ensures
        final(v)@.len() == 0,
{
    v.zeroize();
}

/// A 32-byte array holding the bytes of `v`.
fn array32(v: &[u8]) -> (res: [u8; 32])
    requires
        v@.len() == 32,
    ensures
        res@ == v@,
{
    let mut arr = [0u8; 32];
    let mut i: usize = 0;
    while i < 32
        invariant
            i <= 32,
            v@.len() == 32,
            forall|j: int| 0 <= j < i ==> arr@[j] == v@[j],
        decreases 32 - i,
    {
        arr[i] = v[i];
        i = i + 1;
    }
    assert(arr@ =~= v@);
    arr
}

/// Length of the white space encoded at the start of `s[i..j]`.
fn ws_prefix_at(s: &[u8], i: usize, j: usize) -> (k: usize)
    requires
        i <= j <= s@.len(),
    ensures
        k as int == ws_prefix_len(s@.subrange(i as int, j as int)),
{
    let ghost t = s@.subrange(i as int, j as int);
    let n = j - i;
    if n >= 1 && ((9 <= s[i] && s[i] <= 13) || s[i] == 32) {
        assert(t[0] == s@[i as int]);
        1
    } else if n >= 2 && s[i] == 0xC2 && (s[i + 1] == 0x85 || s[i + 1] == 0xA0) {
        assert(t[0] == s@[i as int] && t[1] == s@[i + 1]);
        2
    } else if n >= 3 && ws3_exec(s[i], s[i + 1], s[i + 2]) {
        assert(t[0] == s@[i as int] && t[1] == s@[i + 1] && t[2] == s@[i + 2]);
        3
    } else {
        proof {
            if n >= 1 {
                assert(t[0] == s@[i as int]);
            }
            if n >= 2 {
                assert(t[1] == s@[i + 1]);
            }
            if n >= 3 {
                assert(t[2] == s@[i + 2]);
            }
        }
        0
    }
}

/// Length of the white space encoded at the end of `s[i..j]`.
fn ws_suffix_at(s: &[u8], i: usize, j: usize) -> (k: usize)
    requires
        i <= j <= s@.len(),
    ensures
        k as int == ws_suffix_len(s@.subrange(i as int, j as int)),
{
    let ghost t = s@.subrange(i as int, j as int);
    let n = j - i;
    if n >= 1 && ((9 <= s[j - 1] && s[j - 1] <= 13) || s[j - 1] == 32) {
        assert(t[n - 1] == s@[j - 1]);
        1
    } else if n >= 2 && s[j - 2] == 0xC2 && (s[j - 1] == 0x85 || s[j - 1] == 0xA0) {
        assert(t[n - 1] == s@[j - 1] && t[n - 2] == s@[j - 2]);
        2
    } else if n >= 3 && ws3_exec(s[j - 3], s[j - 2], s[j - 1]) {
        assert(t[n - 1] == s@[j - 1] && t[n - 2] == s@[j - 2] && t[n - 3] == s@[j - 3]);
        3
    } else {
        proof {
            if n >= 1 {
                assert(t[n - 1] == s@[j - 1]);
            }
            if n >= 2 {
                assert(t[n - 2] == s@[j - 2]);
            }
            if n >= 3 {
                assert(t[n - 3] == s@[j - 3]);
            }
        }
        0
    }
}

fn ws3_exec(a: u8, b: u8, c: u8) -> (r: bool)
    ensures
        r == ws3(a, b, c),
{
    (a == 0xE1 && b == 0x9A && c == 0x80) || (a == 0xE2 && b == 0x80 && ((0x80 <= c && c <= 0x8A)
        || c == 0xA8 || c == 0xA9 || c == 0xAF)) || (a == 0xE2 && b == 0x81 && c == 0x9F) || (a
        == 0xE3 && b == 0x80 && c == 0x80)
}

/// The span of `trim_ws(s)` within `s`.
fn trim_span(s: &[u8]) -> (r: (usize, usize))
    ensures
        r.0 <= r.1 <= s@.len(),
        trim_ws(s@) == s@.subrange(r.0 as int, r.1 as int),
{
    let len = s.len();
    let mut a: usize = 0;
    assert(s@.subrange(0, len as int) =~= s@);
    loop
        invariant
            a <= len == s@.len(),
            trim_start_ws(s@) == trim_start_ws(s@.subrange(a as int, len as int)),
        ensures
            a <= len == s@.len(),
            trim_start_ws(s@) == s@.subrange(a as int, len as int),
        decreases len - a,
    {
        let k = ws_prefix_at(s, a, len);
        if k == 0 {
            break;
        }
        assert(s@.subrange(a as int, len as int).subrange(k as int, len - a) =~= s@.subrange(
            a + k,
            len as int,
        ));
        a = a + k;
    }
    let mut b: usize = len;
    loop
        invariant
            a <= b <= len == s@.len(),
            trim_start_ws(s@) == s@.subrange(a as int, len as int),
            trim_ws(s@) == trim_end_ws(s@.subrange(a as int, b as int)),
        ensures
            a <= b <= len,
            trim_ws(s@) == s@.subrange(a as int, b as int),
        decreases b - a,
    {
        let k = ws_suffix_at(s, a, b);
        if k == 0 {
            break;
        }
        assert(s@.subrange(a as int, b as int).subrange(0, b - a - k) =~= s@.subrange(
            a as int,
            b - k,
        ));
        b = b - k;
    }
    (a, b)
}

/// Whether every byte of `s` is a hexadecimal digit.
fn all_hex_exec(s: &[u8]) -> (r: bool)
    ensures
        r == all_hex(s@),
{
    let mut i: usize = 0;
    while i < s.len()
        invariant
            i <= s@.len(),
            forall|j: int| 0 <= j < i ==> is_hex_digit(#[trigger] s@[j]),
        decreases s@.len() - i,
    {
        let b = s[i];
        if !((48 <= b && b <= 57) || (97 <= b && b <= 102) || (65 <= b && b <= 70)) {
            return false;
        }
        i = i + 1;
    }
    true
}

/// Reads a plain key file: UTF-8 text holding 64 hex characters.
fn read_plain_key(raw: &[u8]) -> (res: Result<Aes256GcmKey, KeyError>)
    ensures
        match res {
            Ok(k) => plain_key(raw@) == Ok::<Seq<u8>, KeyError>(k.view()),
            Err(e) => plain_key(raw@) == Err::<Seq<u8>, KeyError>(e),
        },
{
    let copy = to_vec(raw);
    if string_from_utf8(copy).is_none() {
        return Err(KeyError::NotUtf8);
    }
    let (a, b) = trim_span(raw);
    let s = &raw[a..b];
    if s.len() != 64 {
        return Err(KeyError::InvalidLength(s.len()));
    }
    if !all_hex_exec(s) {
        return Err(KeyError::InvalidHex);
    }
    let mut decoded = match hex_decode(s) {
        Some(d) => d,
        None => return Err(KeyError::InvalidHex),
    };
    if decoded.len() != 32 {
        return Err(KeyError::InvalidHex);
    }
    let arr = array32(decoded.as_slice());
    zeroize_vec(&mut decoded);
    Ok(Aes256GcmKey::from_bytes(arr))
}

/// The header of a protected key file: `LKEY1 | salt | nonce`.
fn keyfile_header(salt: &[u8], nonce: &[u8]) -> (res: Vec<u8>)
    ensures
        res@ == keyfile_magic_seq() + salt@ + nonce@,
{
    proof {
        lemma_magic_arrays();
    }
    let mut h: Vec<u8> = Vec::new();
    append_bytes(&mut h, &KEYFILE_MAGIC);
    append_bytes(&mut h, salt);
    append_bytes(&mut h, nonce);
    h
}

/// Reads a protected key file with the given passphrase.
fn read_protected_key(raw: &[u8], passphrase: Option<&[u8]>) -> (res: Result<Aes256GcmKey, KeyError>)
    ensures
        match res {
            Ok(k) => protected_key(raw@, opt_view(passphrase)) == Ok::<Seq<u8>, KeyError>(k.view()),
            Err(e) => protected_key(raw@, opt_view(passphrase)) == Err::<Seq<u8>, KeyError>(e),
        },
{
    let pass = match passphrase {
        Some(p) => p,
        None => return Err(KeyError::NeedsPassphrase),
    };
    if raw.len() < 49 {
        return Err(KeyError::KeyfileTooShort);
    }
    let salt = &raw[5..21];
    let nonce = &raw[21..33];
    let ct = &raw[33..raw.len()];
    let wrap = match argon2_hash_password_into(
        KdfAlgorithm::Argon2id,
        KdfVersion::V0x13,
        ARGON2_M_COST,
        ARGON2_T_COST,
        ARGON2_P_COST,
        pass,
        salt,
    ) {
        Some(w) => w,
        None => return Err(KeyError::KeyDerivation),
    };
    let aad = keyfile_header(salt, nonce);
    let wrap_bytes = zeroizing_deref(&wrap);
    let mut pt = match aes256gcm_decrypt(wrap_bytes.as_slice(), nonce, ct, aad.as_slice()) {
        Some(pt) => pt,
        None => return Err(KeyError::WrongPassphrase),
    };
    if pt.len() != 32 {
        return Err(KeyError::DecryptedKeyLength(pt.len()));
    }
    let arr = array32(pt.as_slice());
    zeroize_vec(&mut pt);
    Ok(Aes256GcmKey::from_bytes(arr))
}

/// Reads the encryption key from the bytes of a key file.
///
/// Two formats are read:
/// 1) plain hex: the file holds exactly 64 hex characters (32 bytes), with
///    surrounding white space allowed;
/// 2) passphrase-protected:
///    `LKEY1 | SALT(16) | NONCE(12) | AES-256-GCM(PT = 32-byte key, AAD = header) | TAG(16)`.
///
/// A protected file (one starting with `LKEY1`) read without a passphrase is
/// refused with [`KeyError::NeedsPassphrase`].
pub fn read_lock_key(raw: &[u8], passphrase: Option<&[u8]>) -> (res: Result<Aes256GcmKey, KeyError>)
    ensures
        match res {
            Ok(k) => key_file_key(raw@, opt_view(passphrase)) == Ok::<Seq<u8>, KeyError>(k.view()),
            Err(e) => key_file_key(raw@, opt_view(passphrase)) == Err::<Seq<u8>, KeyError>(e),
        },
{
    proof {
        lemma_magic_arrays();
    }
    if has_prefix(raw, &KEYFILE_MAGIC) {
        read_protected_key(raw, passphrase)
    } else {
        read_plain_key(raw)
    }
}

/// A hexadecimal digit (of either case) is not white space, has a one-byte
/// encoding, and is none of the bytes that white space ends or starts with.
proof fn lemma_hex_digit_bytes(b: u8)
    requires
        is_hex_digit(b),
    ensures
        !(9 <= b <= 13),
        b != 32,
        b < 0x80,
        b != 0xC2 && b != 0xE1 && b != 0xE2 && b != 0xE3,
{
}

/// `hex_digit` gives a hexadecimal digit whose value is the nibble.
proof fn lemma_hex_digit(n: u8)
    requires
        n < 16,
    ensures
        is_hex_digit(hex_digit(n)),
        hex_value(hex_digit(n)) == n,
{
}

/// Decoding the lower-case hex of some bytes gives them back.
pub proof fn lemma_hex_round_trip(d: Seq<u8>)
    ensures
        hex_decoded(hex_lower(d)) == Some(d),
{
    let s = hex_lower(d);
    assert forall|i: int| 0 <= i < s.len() implies is_hex_digit(#[trigger] s[i]) by {
        assert(i / 2 < d.len());
        if i % 2 == 0 {
            lemma_hex_digit(d[i / 2] / 16);
        } else {
            lemma_hex_digit(d[i / 2] % 16);
        }
    }
    let r = hex_decoded(s).unwrap();
    assert forall|i: int| 0 <= i < d.len() implies #[trigger] r[i] == d[i] by {
        assert((2 * i) % 2 == 0 && (2 * i) / 2 == i);
        assert((2 * i + 1) % 2 == 1 && (2 * i + 1) / 2 == i);
        lemma_hex_digit(d[i] / 16);
        lemma_hex_digit(d[i] % 16);
        let hi = d[i] / 16;
        let lo = d[i] % 16;
        assert(hi * 16 + lo == d[i]);
    }
    assert(r =~= d);
}

/// Bytes below 0x80 are valid UTF-8.
pub proof fn lemma_ascii_valid_utf8(b: Seq<u8>)
    requires
        forall|i: int| 0 <= i < b.len() ==> b[i] < 0x80,
    ensures
        valid_utf8(b),
{
    assert(b.subrange(0, 0) =~= Seq::<u8>::empty());
    assert(valid_utf8(b.subrange(0, 0)));
    vstd::utf8::partial_valid_utf8_extend_ascii_block(b, 0, b.len() as int);
    assert(b.subrange(0, b.len() as int) =~= b);
}

/// A plain key file reads back as the key it was written for, with or
/// without a passphrase.
pub proof fn lemma_plain_keyfile_round_trip(key: Seq<u8>, passphrase: Option<Seq<u8>>)
    requires
        key.len() == 32,
    ensures
        key_file_key(plain_keyfile_spec(key), passphrase) == Ok::<Seq<u8>, KeyError>(key),
{
    let h = hex_lower(key);
    let raw = plain_keyfile_spec(key);
    lemma_hex_round_trip(key);
    assert(all_hex(h));
    assert forall|i: int| 0 <= i < raw.len() implies raw[i] < 0x80 by {
        if i < h.len() {
            lemma_hex_digit_bytes(h[i]);
        }
    }
    lemma_ascii_valid_utf8(raw);
    // no white space at the start
    lemma_hex_digit_bytes(raw[0]);
    assert(ws_prefix_len(raw) == 0);
    assert(trim_start_ws(raw) == raw);
    // the newline at the end, and nothing more
    assert(ws_suffix_len(raw) == 1);
    assert(raw.subrange(0, raw.len() - 1) =~= h);
    lemma_hex_digit_bytes(h[h.len() - 1]);
    assert(ws_suffix_len(h) == 0);
    assert(trim_end_ws(h) == h);
    assert(trim_ws(raw) == h);
    // not a protected file: `L` is not a hex digit
    lemma_hex_digit_bytes(raw[0]);
    assert(raw.subrange(0, 5)[0] == raw[0]);
    assert(!starts_with(raw, keyfile_magic_seq()));
}

/// A protected key file is never read without a passphrase.
pub proof fn lemma_protected_needs_passphrase(raw: Seq<u8>)
    requires
        starts_with(raw, keyfile_magic_seq()),
    ensures
        key_file_key(raw, None) == Err::<Seq<u8>, KeyError>(KeyError::NeedsPassphrase),
{
}

/// The contents of a plain key file for `key`: its 64 lower-case hex
/// characters and a newline. Reading them back gives the key, with or
/// without a passphrase.
pub fn plain_keyfile(key: &Aes256GcmKey) -> (res: Vec<u8>)
    ensures
        res@ == plain_keyfile_spec(key.view()),
        res@.len() == 65,
        forall|p: Option<Seq<u8>>| #[trigger] key_file_key(res@, p) == Ok::<Seq<u8>, KeyError>(key.view()),
{
    key.lemma_len();
    let mut v = hex_encode(key_bytes(key).as_slice());
    v.push(10);
    assert(v@ =~= plain_keyfile_spec(key.view()));
    proof {
        assert forall|p: Option<Seq<u8>>| #[trigger] key_file_key(v@, p) == Ok::<Seq<u8>, KeyError>(key.view()) by {
            lemma_plain_keyfile_round_trip(key.view(), p);
        }
    }
    v
}

/// The contents of a key file protected by `passphrase`:
/// `LKEY1 | salt | nonce | AES-256-GCM(key, AAD = header) | tag`, the
/// AES key being Argon2id of the passphrase and the salt. Fails only when
/// the passphrase is longer than Argon2 accepts. Reading the contents back
/// with the same passphrase gives the key.
pub fn protected_keyfile(passphrase: &[u8], salt: &[u8], nonce: &[u8], key: &Aes256GcmKey) -> (res: Result<Vec<u8>, KeyError>)
    requires
        salt@.len() == 16,
        nonce@.len() == 12,
    ensures
        res is Ok <==> passphrase@.len() <= u32::MAX,
        match res {
            Ok(b) => b@ == protected_keyfile_spec(passphrase@, salt@, nonce@, key.view())
                && b@.len() == 81 && key_file_key(b@, Some(passphrase@)) == Ok::<Seq<u8>, KeyError>(key.view()),
            Err(e) => e == KeyError::KeyDerivation,
        },
{
    key.lemma_len();
    let wrap = match argon2_hash_password_into(
        KdfAlgorithm::Argon2id,
        KdfVersion::V0x13,
        ARGON2_M_COST,
        ARGON2_T_COST,
        ARGON2_P_COST,
        passphrase,
        salt,
    ) {
        Some(w) => w,
        None => return Err(KeyError::KeyDerivation),
    };
    let header = keyfile_header(salt, nonce);
    let wrap_bytes = zeroizing_deref(&wrap);
    let ct = match aes256gcm_encrypt(wrap_bytes.as_slice(), nonce, key_bytes(key).as_slice(), header.as_slice()) {
        Some(ct) => ct,
        None => return Err(KeyError::EncryptionFailed),
    };
    let mut out = to_vec(header.as_slice());
    append_bytes(&mut out, ct.as_slice());
    proof {
        let raw = out@;
        let h = header@;
        assert(raw.len() == 81);
        assert(raw.subrange(0, 5) =~= keyfile_magic_seq());
        assert(raw.subrange(5, 21) =~= salt@);
        assert(raw.subrange(21, 33) =~= nonce@);
        assert(raw.subrange(33, raw.len() as int) =~= ct@);
        assert(keyfile_magic_seq() + raw.subrange(5, 21) + raw.subrange(21, 33) =~= h);
    }
    Ok(out)
}

/// Draws a fresh 32-byte key from the operating system's random number
/// generator.
pub fn new_random_key() -> (res: Result<Aes256GcmKey, KeyError>)
    ensures
        res matches Err(e) ==> e == KeyError::RandomFailed,
{
    let mut bytes = match os_random_bytes(32) {
        Some(b) => b,
        None => return Err(KeyError::RandomFailed),
    };
    let arr = array32(bytes.as_slice());
    zeroize_vec(&mut bytes);
    Ok(Aes256GcmKey::from_bytes(arr))
}

/// The contents of the key file for `key`: plain hex when no passphrases
/// are given; otherwise, when the passphrase and its confirmation agree,
/// protected by it under a fresh random salt and nonce. In every case the
/// contents read back as the key (with the passphrase, if any).
pub fn generate_aes_gcm_key(key: &Aes256GcmKey, passphrases: Option<(&[u8], &[u8])>) -> (res: Result<Vec<u8>, KeyError>)
    ensures
        match passphrases {
            None => res matches Ok(b) && b@ == plain_keyfile_spec(key.view()) && b@.len() == 65,
            Some((p1, p2)) => {
                &&& p1@ != p2@ ==> res == Err::<Vec<u8>, KeyError>(KeyError::PassphraseMismatch)
                &&& p1@ == p2@ ==> match res {
                    Ok(b) => b@.len() == 81 && exists|salt: Seq<u8>, nonce: Seq<u8>|
                        salt.len() == 16 && nonce.len() == 12 && b@ == #[trigger] protected_keyfile_spec(
                            p1@,
                            salt,
                            nonce,
                            key.view(),
                        ),
                    Err(e) => e == KeyError::RandomFailed || (e == KeyError::KeyDerivation
                        && p1@.len() > u32::MAX),
                }
            },
        },
        res matches Ok(b) ==> key_file_key(b@, match passphrases {
            Some((p1, _)) => Some(p1@),
            None => None,
        }) == Ok::<Seq<u8>, KeyError>(key.view()),
{
    match passphrases {
        None => Ok(plain_keyfile(key)),
        Some((p1, p2)) => {
            if !bytes_eq(p1, p2) {
                return Err(KeyError::PassphraseMismatch);
            }
            let salt = match os_random_bytes(16) {
                Some(s) => s,
                None => return Err(KeyError::RandomFailed),
            };
            let nonce = match os_random_bytes(12) {
                Some(n) => n,
                None => return Err(KeyError::RandomFailed),
            };
            let r = protected_keyfile(p1, salt.as_slice(), nonce.as_slice(), key);
            proof {
                if let Ok(ref b) = r {
                    assert(b@ == protected_keyfile_spec(p1@, salt@, nonce@, key.view()));
                }
            }
            r
        },
    }
}


/// The wrapping key of a protected key file is Argon2id, version 0x13, with
/// 65536 KiB of memory, 3 passes and 1 lane, of the passphrase and the salt.
pub proof fn lemma_wrap_key_is_argon2id(passphrase: Seq<u8>, salt: Seq<u8>)
    ensures
        wrap_key(passphrase, salt) == argon2_hash(
            KdfAlgorithm::Argon2id,
            KdfVersion::V0x13,
            65536u32,
            3u32,
            1u32,
            passphrase,
            salt,
        ),
{
}

/// The bytes of a protected key file: `LKEY1`, the salt, the nonce, then
/// AES-256-GCM of the key under the Argon2id wrapping key (version 0x13,
/// 65536 KiB, 3 passes, 1 lane) and the nonce, with the whole 33-byte header
/// `LKEY1 | salt | nonce` as associated data.
pub proof fn lemma_protected_keyfile_bytes(passphrase: Seq<u8>, salt: Seq<u8>, nonce: Seq<u8>, key: Seq<u8>)
    ensures
        protected_keyfile_spec(passphrase, salt, nonce, key) == seq![0x4Cu8, 0x4Bu8, 0x45u8, 0x59u8, 0x31u8]
            + salt + nonce + aes256gcm_seal(
            argon2_hash(KdfAlgorithm::Argon2id, KdfVersion::V0x13, 65536u32, 3u32, 1u32, passphrase, salt),
            nonce,
            key,
            seq![0x4Cu8, 0x4Bu8, 0x45u8, 0x59u8, 0x31u8] + salt + nonce,
        ),
{
    assert(keyfile_magic_seq() =~= seq![0x4Cu8, 0x4Bu8, 0x45u8, 0x59u8, 0x31u8]);
}

/// Reading a protected key file with a passphrase. For a file of at least
/// 49 bytes that starts with `LKEY1`, the AES-256-GCM ciphertext `raw[33..]`
/// is opened under the Argon2id wrapping key (version 0x13, 65536 KiB,
/// 3 passes, 1 lane) of the passphrase and the salt `raw[5..21]`, with the
/// nonce `raw[21..33]` and the header bytes `raw[0..33]` as associated
/// data: a 32-byte plaintext is the key, any other length is refused, and
/// a failed authentication is a wrong passphrase.
pub proof fn lemma_read_protected_key_file(raw: Seq<u8>, passphrase: Seq<u8>)
    requires
        raw.len() >= 49,
        raw.subrange(0, 5) == seq![0x4Cu8, 0x4Bu8, 0x45u8, 0x59u8, 0x31u8],
        passphrase.len() <= u32::MAX,
    ensures
        key_file_key(raw, Some(passphrase)) == match aes256gcm_open(
            argon2_hash(
                KdfAlgorithm::Argon2id,
                KdfVersion::V0x13,
                65536u32,
                3u32,
                1u32,
                passphrase,
                raw.subrange(5, 21),
            ),
            raw.subrange(21, 33),
            raw.subrange(33, raw.len() as int),
            raw.subrange(0, 33),
        ) {
            Some(k) => if k.len() == 32 {
                Ok::<Seq<u8>, KeyError>(k)
            } else {
                Err(KeyError::DecryptedKeyLength(k.len() as usize))
            },
            None => Err(KeyError::WrongPassphrase),
        },
{
    assert(keyfile_magic_seq() =~= seq![0x4Cu8, 0x4Bu8, 0x45u8, 0x59u8, 0x31u8]);
    assert(keyfile_magic_seq() + raw.subrange(5, 21) + raw.subrange(21, 33) =~= raw.subrange(0, 33));
}

/// A key file written for `key` under a passphrase reads back as `key`
/// with that passphrase, whenever the sealed key opens again under the same
/// wrapping key, nonce and header.
pub proof fn lemma_protected_key_file_reads_back(passphrase: Seq<u8>, salt: Seq<u8>, nonce: Seq<u8>, key: Seq<u8>)
    requires
        salt.len() == 16,
        nonce.len() == 12,
        key.len() == 32,
        passphrase.len() <= u32::MAX,
        aes256gcm_seal(
            argon2_hash(KdfAlgorithm::Argon2id, KdfVersion::V0x13, 65536u32, 3u32, 1u32, passphrase, salt),
            nonce,
            key,
            seq![0x4Cu8, 0x4Bu8, 0x45u8, 0x59u8, 0x31u8] + salt + nonce,
        ).len() == 48,
        aes256gcm_open(
            argon2_hash(KdfAlgorithm::Argon2id, KdfVersion::V0x13, 65536u32, 3u32, 1u32, passphrase, salt),
            nonce,
            aes256gcm_seal(
                argon2_hash(KdfAlgorithm::Argon2id, KdfVersion::V0x13, 65536u32, 3u32, 1u32, passphrase, salt),
                nonce,
                key,
                seq![0x4Cu8, 0x4Bu8, 0x45u8, 0x59u8, 0x31u8] + salt + nonce,
            ),
            seq![0x4Cu8, 0x4Bu8, 0x45u8, 0x59u8, 0x31u8] + salt + nonce,
        ) == Some(key),
    ensures
        key_file_key(
            seq![0x4Cu8, 0x4Bu8, 0x45u8, 0x59u8, 0x31u8] + salt + nonce + aes256gcm_seal(
                argon2_hash(KdfAlgorithm::Argon2id, KdfVersion::V0x13, 65536u32, 3u32, 1u32, passphrase, salt),
                nonce,
                key,
                seq![0x4Cu8, 0x4Bu8, 0x45u8, 0x59u8, 0x31u8] + salt + nonce,
            ),
            Some(passphrase),
        ) == Ok::<Seq<u8>, KeyError>(key),
{
    let h = seq![0x4Cu8, 0x4Bu8, 0x45u8, 0x59u8, 0x31u8] + salt + nonce;
    let ct = aes256gcm_seal(
        argon2_hash(KdfAlgorithm::Argon2id, KdfVersion::V0x13, 65536u32, 3u32, 1u32, passphrase, salt),
        nonce,
        key,
        h,
    );
    let raw = h + ct;
    assert(raw.subrange(0, 5) =~= seq![0x4Cu8, 0x4Bu8, 0x45u8, 0x59u8, 0x31u8]);
    assert(raw.subrange(0, 33) =~= h);
    assert(raw.subrange(5, 21) =~= salt);
    assert(raw.subrange(21, 33) =~= nonce);
    assert(raw.subrange(33, raw.len() as int) =~= ct);
    lemma_read_protected_key_file(raw, passphrase);
}


/// Reading a plain key file of 64 hexadecimal digits (0-9, a-f, A-F),
/// alone or followed by a newline: byte `i` of the key has the value of
/// digit `2i` as its high nibble and of digit `2i + 1` as its low nibble,
/// with or without a passphrase.
pub proof fn lemma_read_plain_hex_key(s: Seq<u8>, newline: bool, passphrase: Option<Seq<u8>>)
    requires
        s.len() == 64,
        forall|i: int|
            0 <= i < 64 ==> (0x30u8 <= #[trigger] s[i] <= 0x39u8) || (0x61u8 <= s[i] <= 0x66u8) || (0x41u8
                <= s[i] <= 0x46u8),
    ensures
        key_file_key(if newline { s + seq![0x0Au8] } else { s }, passphrase) == Ok::<Seq<u8>, KeyError>(
            Seq::new(
                32,
                |i: int|
                    ((if s[2 * i] <= 0x39u8 {
                        s[2 * i] - 0x30
                    } else if s[2 * i] >= 0x61u8 {
                        s[2 * i] - 0x57
                    } else {
                        s[2 * i] - 0x37
                    }) * 16 + (if s[2 * i + 1] <= 0x39u8 {
                        s[2 * i + 1] - 0x30
                    } else if s[2 * i + 1] >= 0x61u8 {
                        s[2 * i + 1] - 0x57
                    } else {
                        s[2 * i + 1] - 0x37
                    })) as u8,
            ),
        ),
{
    let raw = if newline { s + seq![0x0Au8] } else { s };
    assert forall|i: int| 0 <= i < s.len() implies is_hex_digit(#[trigger] s[i]) by {}
    assert forall|i: int| 0 <= i < raw.len() implies raw[i] < 0x80 by {
        if i < s.len() {
            assert(raw[i] == s[i]);
            lemma_hex_digit_bytes(s[i]);
        }
    }
    lemma_ascii_valid_utf8(raw);
    lemma_hex_digit_bytes(raw[0]);
    assert(raw[0] == s[0]);
    assert(ws_prefix_len(raw) == 0);
    assert(trim_start_ws(raw) == raw);
    lemma_hex_digit_bytes(s[63]);
    assert(ws_suffix_len(s) == 0);
    assert(trim_end_ws(s) == s);
    if newline {
        assert(ws_suffix_len(raw) == 1);
        assert(raw.subrange(0, raw.len() - 1) =~= s);
    }
    assert(trim_ws(raw) == s);
    assert(raw.subrange(0, 5)[0] == raw[0]);
    assert(!starts_with(raw, keyfile_magic_seq()));
    assert(all_hex(s));
    let d = hex_decoded(s).unwrap();
    assert forall|i: int| 0 <= i < 32 implies d[i] == ((if s[2 * i] <= 0x39u8 {
        s[2 * i] - 0x30
    } else if s[2 * i] >= 0x61u8 {
        s[2 * i] - 0x57
    } else {
        s[2 * i] - 0x37
    }) * 16 + (if s[2 * i + 1] <= 0x39u8 {
        s[2 * i + 1] - 0x30
    } else if s[2 * i + 1] >= 0x61u8 {
        s[2 * i + 1] - 0x57
    } else {
        s[2 * i + 1] - 0x37
    })) as u8 by {
        assert(is_hex_digit(s[2 * i]));
        assert(is_hex_digit(s[2 * i + 1]));
    }
    assert(d =~= Seq::new(
        32,
        |i: int|
            ((if s[2 * i] <= 0x39u8 {
                s[2 * i] - 0x30
            } else if s[2 * i] >= 0x61u8 {
                s[2 * i] - 0x57
            } else {
                s[2 * i] - 0x37
            }) * 16 + (if s[2 * i + 1] <= 0x39u8 {
                s[2 * i + 1] - 0x30
            } else if s[2 * i + 1] >= 0x61u8 {
                s[2 * i + 1] - 0x57
            } else {
                s[2 * i + 1] - 0x37
            })) as u8,
    ));
}

} // verus!
