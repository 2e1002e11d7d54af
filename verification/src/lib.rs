//! Verified core of `lock`: the formats of encrypted files and key files,
//! the planning of encryption and decryption runs over a directory tree,
//! and the decisions of the command-line tool and its uploads.

pub mod actions;
pub mod bytes;
pub mod cli;
pub mod constants;
pub mod crypto;
pub mod key;
pub mod keyfile;
pub mod lockfile;
pub mod mirror;
pub mod options;
pub mod paths;
pub mod upload;
pub mod utils;
pub mod walk;

pub use constants::{
    DEFAULT_VEC_CAPACITY, ENCRYPTED_EXT, HEADER_LEN, KEYFILE_HEADER_LEN, KEYFILE_MAGIC,
    KEYFILE_MAGIC_LEN, LARGE_VEC_THRESHOLD, MAGIC, MAGIC_LEN, MAX_PATH_LEN, NONCE_LEN, SALT_LEN,
    SMALL_BUFFER_SIZE, TAG_LEN,
};
pub use key::{key_bytes, Aes256GcmKey};
pub use actions::load_key_with_retries;
pub use keyfile::read_lock_key;
