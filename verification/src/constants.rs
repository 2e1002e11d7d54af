use vstd::prelude::*;

verus! {

/// Magic bytes that identify an encrypted file, format version 1 (`LOCK1`).
/// Layout: MAGIC(5) | NONCE(12) | CIPHERTEXT + 16-byte tag.
pub const MAGIC: [u8; 5] = [76, 79, 67, 75, 49];

/// Length of [`MAGIC`].
pub const MAGIC_LEN: usize = 5;

/// Length of an AES-GCM nonce (96 bits).
pub const NONCE_LEN: usize = 12;

/// Length of a GCM authentication tag (128 bits).
pub const TAG_LEN: usize = 16;

/// Length of an encrypted file's header: MAGIC | NONCE.
pub const HEADER_LEN: usize = 17;

pub const MAX_PATH_LEN: usize = 4096;

pub const SMALL_BUFFER_SIZE: usize = 1024;

pub const DEFAULT_VEC_CAPACITY: usize = 100;

pub const LARGE_VEC_THRESHOLD: usize = 1000;

/// Extension given to encrypted files.
pub const ENCRYPTED_EXT: &'static str = ".lock";

/// Magic bytes of a passphrase-protected key file, version 1 (`LKEY1`).
/// Layout: KEYFILE_MAGIC(5) | SALT(16) | NONCE(12) | AES-256-GCM(PT = 32-byte key,
/// AAD = header) | TAG(16).
pub const KEYFILE_MAGIC: [u8; 5] = [76, 75, 69, 89, 49];

/// Length of [`KEYFILE_MAGIC`].
pub const KEYFILE_MAGIC_LEN: usize = 5;

/// Length of the Argon2id salt of a protected key file.
pub const SALT_LEN: usize = 16;

/// Length of a protected key file's header: KEYFILE_MAGIC | SALT | NONCE.
pub const KEYFILE_HEADER_LEN: usize = 33;

/// The magic of an encrypted file, as a sequence.
pub open spec fn magic_seq() -> Seq<u8> {
    seq![76u8, 79u8, 67u8, 75u8, 49u8]
}

/// The magic of a protected key file, as a sequence.
pub open spec fn keyfile_magic_seq() -> Seq<u8> {
    seq![76u8, 75u8, 69u8, 89u8, 49u8]
}

/// The magic arrays hold the bytes of their sequences.
pub proof fn lemma_magic_arrays()
    ensures
        MAGIC@ == magic_seq(),
        KEYFILE_MAGIC@ == keyfile_magic_seq(),
{
    assert(MAGIC@ =~= magic_seq());
    assert(KEYFILE_MAGIC@ =~= keyfile_magic_seq());
}

} // verus!
