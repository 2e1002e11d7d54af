//! The command line: one command with its options.
use vstd::prelude::*;
use crate::options::{DecryptArgs, EncryptArgs, InspectArgs, KeygenArgs, UploadArgs};

verus! {

/// The parsed command line.
#[derive(Debug, Clone)]
pub struct Cli {
    pub command: Commands,
}

/// The commands of `lock`.
#[derive(Debug, Clone)]
pub enum Commands {
    /// Generate a new encryption key (alias `kgen`).
    Keygen(KeygenArgs),
    /// Encrypt files with AES-256-GCM (alias `enc`).
    Encrypt(EncryptArgs),
    /// Decrypt encrypted files (alias `dec`).
    Decrypt(DecryptArgs),
    /// Inspect encrypted files or keys (alias `insp`).
    Inspect(InspectArgs),
    /// Upload encrypted files to GitHub (alias `up`).
    Upload(UploadArgs),
}

} // verus!
