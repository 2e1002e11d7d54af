//! The outside cryptographic and encoding functions the library calls, with
//! the contracts that are assumed of them.
use vstd::prelude::*;
use vstd::utf8::{decode_utf8, valid_utf8};
use aes_gcm::aead::{Aead, KeyInit, Payload};
use aes_gcm::{Aes256Gcm, Key, Nonce};
use argon2::{Algorithm, Argon2, Params, Version};
use base64::Engine;
use rand::rngs::OsRng;
use rand::TryRngCore;
use zeroize::Zeroizing;
use crate::key::{zeroizing_key_bytes, ZeroizingKey};

verus! {

/// Largest plaintext or associated data that AES-GCM accepts (2^36 bytes).
pub open spec fn aes_gcm_max_len() -> nat {
    0x10_0000_0000
}

/// The ciphertext (with its 16-byte tag appended) that AES-256-GCM produces
/// under `key` and `nonce` for `plaintext` and associated data `aad`.
pub uninterp spec fn aes256gcm_seal(key: Seq<u8>, nonce: Seq<u8>, plaintext: Seq<u8>, aad: Seq<u8>) -> Seq<u8>;

/// What AES-256-GCM decryption under `key` and `nonce` yields for
/// `ciphertext` (with its tag) and `aad`: `None` when authentication fails.
pub uninterp spec fn aes256gcm_open(key: Seq<u8>, nonce: Seq<u8>, ciphertext: Seq<u8>, aad: Seq<u8>) -> Option<Seq<u8>>;

/// Wraps `Aead::encrypt` of `aes_gcm::Aes256Gcm` (keyed by `KeyInit::new`).
/// Assumed: it fails exactly when the plaintext or the associated data is
/// longer than 2^36 bytes; otherwise the ciphertext is the plaintext's
/// length plus the 16-byte tag, is what [`aes256gcm_seal`] names, and
/// decrypting it with the same key, nonce and associated data gives the
/// plaintext back.
#[verifier::external_body]
pub(crate) fn aes256gcm_encrypt(key: &[u8], nonce: &[u8], plaintext: &[u8], aad: &[u8]) -> (res: Option<Vec<u8>>)
    requires
        key@.len() == 32,
        nonce@.len() == 12,
    ensures
        res is Some <==> (plaintext@.len() <= aes_gcm_max_len() && aad@.len() <= aes_gcm_max_len()),
        res matches Some(ct) ==> {
            &&& ct@ == aes256gcm_seal(key@, nonce@, plaintext@, aad@)
            &&& ct@.len() == plaintext@.len() + 16
            &&& aes256gcm_open(key@, nonce@, ct@, aad@) == Some(plaintext@)
        },
{
    let cipher = Aes256Gcm::new(Key::<Aes256Gcm>::from_slice(key));
    cipher.encrypt(Nonce::from_slice(nonce), Payload { msg: plaintext, aad }).ok()
}

/// Wraps `Aead::decrypt` of `aes_gcm::Aes256Gcm` (keyed by `KeyInit::new`).
/// Assumed: the result is what [`aes256gcm_open`] names; a ciphertext
/// shorter than the 16-byte tag is refused, and a plaintext is 16 bytes
/// shorter than its ciphertext.
#[verifier::external_body]
pub(crate) fn aes256gcm_decrypt(key: &[u8], nonce: &[u8], ciphertext: &[u8], aad: &[u8]) -> (res: Option<Vec<u8>>)
    requires
        key@.len() == 32,
        nonce@.len() == 12,
    ensures
        match res {
            Some(pt) => aes256gcm_open(key@, nonce@, ciphertext@, aad@) == Some(pt@)
                && pt@.len() + 16 == ciphertext@.len(),
            None => aes256gcm_open(key@, nonce@, ciphertext@, aad@) is None,
        },
        ciphertext@.len() < 16 ==> res is None,
{
    let cipher = Aes256Gcm::new(Key::<Aes256Gcm>::from_slice(key));
    cipher.decrypt(Nonce::from_slice(nonce), Payload { msg: ciphertext, aad }).ok()
}

/// Argon2 variants.
#[derive(Clone, Copy, Debug, PartialEq, Eq)]
pub enum KdfAlgorithm {
    Argon2d,
    Argon2i,
    Argon2id,
}

/// Argon2 versions.
#[derive(Clone, Copy, Debug, PartialEq, Eq)]
pub enum KdfVersion {
    V0x10,
    V0x13,
}

/// The 32-byte Argon2 hash of `password` and `salt` with the given variant,
/// version, memory cost (KiB), time cost and parallelism.
pub uninterp spec fn argon2_hash(
    algorithm: KdfAlgorithm,
    version: KdfVersion,
    m_cost: u32,
    t_cost: u32,
    p_cost: u32,
    password: Seq<u8>,
    salt: Seq<u8>,
) -> Seq<u8>;

/// The cost parameters that `argon2::Params::new` accepts.
pub open spec fn argon2_params_ok(m_cost: u32, t_cost: u32, p_cost: u32) -> bool {
    &&& m_cost >= 8
    &&& m_cost >= 8 * p_cost
    &&& t_cost >= 1
    &&& 1 <= p_cost <= 0xFF_FFFF
}

/// Wraps `argon2::Argon2::hash_password_into` (with the context built by
/// `Params::new` for a 32-byte output and `Argon2::new`), writing into a
/// zeroizing buffer. Assumed: it succeeds exactly when the parameters are
/// accepted, the password is at most `u32::MAX` bytes and the salt between
/// 8 and `u32::MAX` bytes; the output is what [`argon2_hash`] names.
#[verifier::external_body]
pub(crate) fn argon2_hash_password_into(
    algorithm: KdfAlgorithm,
    version: KdfVersion,
    m_cost: u32,
    t_cost: u32,
    p_cost: u32,
    password: &[u8],
    salt: &[u8],
) -> (res: Option<ZeroizingKey>)
    requires
        p_cost <= 0xFF_FFFF,
    ensures
        res is Some <==> (argon2_params_ok(m_cost, t_cost, p_cost) && password@.len() <= u32::MAX
            && 8 <= salt@.len() <= u32::MAX),
        res matches Some(out) ==> zeroizing_key_bytes(out) == argon2_hash(
            algorithm,
            version,
            m_cost,
            t_cost,
            p_cost,
            password@,
            salt@,
        ),
{
    let params = Params::new(m_cost, t_cost, p_cost, Some(32)).ok()?;
    let algorithm = match algorithm {
        KdfAlgorithm::Argon2d => Algorithm::Argon2d,
        KdfAlgorithm::Argon2i => Algorithm::Argon2i,
        KdfAlgorithm::Argon2id => Algorithm::Argon2id,
    };
    let version = match version {
        KdfVersion::V0x10 => Version::V0x10,
        KdfVersion::V0x13 => Version::V0x13,
    };
    let mut out = Zeroizing::new([0u8; 32]);
    Argon2::new(algorithm, version, params).hash_password_into(password, salt, &mut *out).ok()?;
    Some(ZeroizingKey { inner: out })
}

/// Wraps `TryRngCore::try_fill_bytes` of `rand::rngs::OsRng` on a fresh
/// buffer of `len` bytes. The bytes come from the operating system; only
/// their number is stated, and the call may fail.
#[verifier::external_body]
pub(crate) fn os_random_bytes(len: usize) -> (res: Option<Vec<u8>>)
    ensures
        res matches Some(v) ==> v@.len() == len,
{
    let mut buf = vec![0u8; len];
    OsRng.try_fill_bytes(&mut buf).ok()?;
    Some(buf)
}

/// The lower-case hexadecimal digit of `n` (for `n < 16`), as an ASCII byte.
pub open spec fn hex_digit(n: u8) -> u8 {
    if n < 10 {
        (48 + n) as u8
    } else {
        (87 + n) as u8
    }
}

/// Lower-case hexadecimal encoding: two digits per byte, high nibble first.
pub open spec fn hex_lower(data: Seq<u8>) -> Seq<u8> {
    Seq::new(
        2 * data.len(),
        |i: int|
            if i % 2 == 0 {
                hex_digit(data[i / 2] / 16)
            } else {
                hex_digit(data[i / 2] % 16)
            },
    )
}

/// An ASCII hexadecimal digit, either case.
pub open spec fn is_hex_digit(b: u8) -> bool {
    (48 <= b <= 57) || (97 <= b <= 102) || (65 <= b <= 70)
}

/// The value of a hexadecimal digit.
pub open spec fn hex_value(b: u8) -> u8 {
    if 48 <= b <= 57 {
        (b - 48) as u8
    } else if 97 <= b <= 102 {
        (b - 87) as u8
    } else {
        (b - 55) as u8
    }
}

/// Hexadecimal decoding as the `hex` crate does it: an even number of
/// digits of either case, two per byte, high nibble first.
pub open spec fn hex_decoded(s: Seq<u8>) -> Option<Seq<u8>> {
    if s.len() % 2 == 0 && forall|i: int| 0 <= i < s.len() ==> is_hex_digit(#[trigger] s[i]) {
        Some(Seq::new(s.len() / 2, |i: int| (hex_value(s[2 * i]) * 16 + hex_value(s[2 * i + 1])) as u8))
    } else {
        None
    }
}

/// Wraps `hex::encode`, returning the bytes of the string. Assumed: the
/// lower-case hexadecimal digits of the data, two per byte.
#[verifier::external_body]
pub(crate) fn hex_encode(data: &[u8]) -> (res: Vec<u8>)
    ensures
        res@ == hex_lower(data@),
{
    hex::encode(data).into_bytes()
}

/// Wraps `hex::decode`. Assumed: it succeeds exactly on an even number of
/// hexadecimal digits (either case) and yields one byte per pair.
#[verifier::external_body]
pub(crate) fn hex_decode(data: &[u8]) -> (res: Option<Vec<u8>>)
    ensures
        match res {
            Some(v) => hex_decoded(data@) == Some(v@),
            None => hex_decoded(data@) is None,
        },
{
    hex::decode(data).ok()
}

/// Wraps `String::from_utf8`. Assumed, as its documentation says: it
/// succeeds exactly on valid UTF-8, and the string holds the decoded
/// characters.
#[verifier::external_body]
pub(crate) fn string_from_utf8(bytes: Vec<u8>) -> (res: Option<String>)
    ensures
        res is Some <==> valid_utf8(bytes@),
        res matches Some(s) ==> s@ == decode_utf8(bytes@),
{
    String::from_utf8(bytes).ok()
}

/// The characters that `String::from_utf8_lossy` gives for `bytes`.
pub uninterp spec fn utf8_lossy(bytes: Seq<u8>) -> Seq<char>;

/// Wraps `String::from_utf8_lossy`, made an owned string. Assumed: the
/// result is what [`utf8_lossy`] names, and on valid UTF-8 it is the
/// decoded text; other input has invalid sequences replaced by U+FFFD, which
/// is left unsaid.
#[verifier::external_body]
pub(crate) fn string_from_utf8_lossy(bytes: &[u8]) -> (res: String)
    ensures
        res@ == utf8_lossy(bytes@),
        valid_utf8(bytes@) ==> res@ == decode_utf8(bytes@),
{
    String::from_utf8_lossy(bytes).into_owned()
}

/// The character of the standard base64 alphabet for a 6-bit value.
pub open spec fn base64_char(v: int) -> char {
    if v < 26 {
        (65 + v) as char
    } else if v < 52 {
        (97 + v - 26) as char
    } else if v < 62 {
        (48 + v - 52) as char
    } else if v == 62 {
        '+'
    } else {
        '/'
    }
}

/// Standard base64 with `=` padding (RFC 4648): each group of three bytes
/// gives four characters; a final group of one or two bytes is padded.
pub open spec fn base64_standard(d: Seq<u8>) -> Seq<char>
    decreases d.len(),
{
    if d.len() == 0 {
        seq![]
    } else if d.len() == 1 {
        seq![base64_char(d[0] as int / 4), base64_char((d[0] as int % 4) * 16), '=', '=']
    } else if d.len() == 2 {
        seq![
            base64_char(d[0] as int / 4),
            base64_char((d[0] as int % 4) * 16 + d[1] as int / 16),
            base64_char((d[1] as int % 16) * 4),
            '=',
        ]
    } else {
        seq![
            base64_char(d[0] as int / 4),
            base64_char((d[0] as int % 4) * 16 + d[1] as int / 16),
            base64_char((d[1] as int % 16) * 4 + d[2] as int / 64),
            base64_char(d[2] as int % 64),
        ] + base64_standard(d.subrange(3, d.len() as int))
    }
}

/// Wraps `Engine::encode` of `base64::engine::general_purpose::STANDARD`.
/// Assumed: standard base64 with padding.
#[verifier::external_body]
pub(crate) fn base64_encode(data: &[u8]) -> (res: String)
    ensures
        res@ == base64_standard(data@),
{
    base64::engine::general_purpose::STANDARD.encode(data)
}

} // verus!
