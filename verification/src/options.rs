//! The options of each command. Paths are held as the bytes of their
//! Unix `OsStr`.
use vstd::prelude::*;

verus! {

/// Options of `decrypt`.
#[derive(Debug, Clone)]
pub struct DecryptArgs {
    /// Directory containing encrypted .lock files.
    pub input: Vec<u8>,
    /// Directory for decrypted output files.
    pub output: Vec<u8>,
    /// Encryption key file (256-bit AES key).
    pub key_file: Vec<u8>,
    /// Include hidden files and directories.
    pub include_hidden: bool,
    /// Prompt for passphrase if key is protected.
    pub passphrase_prompt: bool,
    /// Number of parallel workers (default: number of CPUs).
    pub jobs: Option<usize>,
    /// Show detailed progress for each file.
    pub verbose: bool,
}

/// Options of `encrypt`.
#[derive(Debug, Clone)]
pub struct EncryptArgs {
    /// Input directory to scan for images.
    pub input: Vec<u8>,
    /// Output directory for encrypted files.
    pub output: Vec<u8>,
    /// Key file (64 hex characters, or passphrase-protected).
    pub key_file: Vec<u8>,
    /// Overwrite existing .lock files if present.
    pub overwrite: bool,
    /// Include hidden files (dotfiles).
    pub include_hidden: bool,
    /// Prompt for passphrase if the key file is protected.
    pub passphrase_prompt: bool,
    /// Number of parallel workers (default: number of CPUs).
    pub jobs: Option<usize>,
    /// Show detailed progress for each file.
    pub verbose: bool,
}

/// Options of `inspect`.
#[derive(Debug, Clone)]
pub struct InspectArgs {
    /// File to inspect (.lock or .key).
    pub file: Vec<u8>,
    /// Output the inspection result as JSON.
    pub json: bool,
}

/// Key algorithms.
#[derive(Debug, Clone, Copy, PartialEq, Eq)]
pub enum Algo {
    /// AES-256-GCM (32-byte key).
    AesGcm,
}

/// Options of `keygen`.
#[derive(Debug, Clone)]
pub struct KeygenArgs {
    /// Output file for the key (default `lock.key`).
    pub out: Vec<u8>,
    /// Key algorithm (default AES-256-GCM).
    pub algo: Algo,
    /// Prompt for a passphrase to protect the key.
    pub passphrase_prompt: bool,
    /// Overwrite an existing key file.
    pub force: bool,
}

/// Cloud storage providers.
#[derive(Debug, Clone, Copy, PartialEq, Eq)]
pub enum Provider {
    /// GitHub repository.
    Github,
    /// Google Drive (not implemented).
    Drive,
    /// Microsoft OneDrive (not implemented).
    Onedrive,
}

/// Options of `upload`.
#[derive(Debug, Clone)]
pub struct UploadArgs {
    /// Cloud storage provider.
    pub provider: Provider,
    /// Directory containing encrypted files to upload.
    pub input_dir: Vec<u8>,
    /// GitHub personal access token (or `GITHUB_TOKEN`).
    pub github_token: Option<String>,
    /// Target GitHub repository, `OWNER/REPO`.
    pub github_repo: Option<String>,
    /// Target branch (default `main`).
    pub github_branch: String,
    /// Show detailed progress for each file.
    pub verbose: bool,
}

} // verus!
