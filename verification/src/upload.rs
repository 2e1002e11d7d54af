//! The decisions of an upload to GitHub: the target repository, which
//! files are sent and under what name, how each is committed, and the
//! outcome of the run.
use vstd::prelude::*;
use vstd::string::{StringExecFns, StringSliceAdditionalSpecFns};
use vstd::utf8::{
    decode_utf8, encode_utf8, is_continuation_byte, length_of_first_scalar, partial_valid_utf8,
    pop_first_scalar, valid_first_scalar, valid_utf8,
};
use crate::bytes::{bytes_eq, to_vec};
use crate::crypto::{base64_encode, base64_standard, string_from_utf8, string_from_utf8_lossy, utf8_lossy};
use crate::paths::{extension, extension_span};
use crate::utils::{eq_ignore_ascii_case, eq_ignore_case_at};
use crate::walk::{relative_path, relative_to, PlanError};

verus! {

/// Why an upload was refused or failed.
#[derive(Debug, Clone, PartialEq, Eq)]
pub enum UploadError {
    /// No GitHub token was given.
    MissingToken,
    /// No target repository was given.
    MissingRepo,
    /// The target repository is not in `OWNER/REPO` form.
    BadRepo,
    /// The provider is not implemented (Google Drive, OneDrive).
    UnsupportedProvider,
    /// The target owner is not the authenticated user.
    NotOwnRepo,
    /// The target repository belongs to an organization.
    OrganizationRepo,
    /// This many files failed to upload.
    Failed(usize),
}

/// Index of the first `b` in `s`, or -1.
pub open spec fn find_first(s: Seq<u8>, b: u8) -> int
    decreases s.len(),
{
    if s.len() == 0 {
        -1
    } else if s[0] == b {
        0
    } else {
        let r = find_first(s.drop_first(), b);
        if r < 0 {
            -1
        } else {
            r + 1
        }
    }
}

proof fn lemma_find_first(s: Seq<u8>, b: u8)
    ensures
        -1 <= find_first(s, b) < s.len(),
        find_first(s, b) >= 0 ==> s[find_first(s, b)] == b,
        forall|i: int| 0 <= i < s.len() && (find_first(s, b) < 0 || i < find_first(s, b)) ==> s[i] != b,
    decreases s.len(),
{
    if s.len() > 0 && s[0] != b {
        lemma_find_first(s.drop_first(), b);
        assert forall|i: int| 0 <= i < s.len() && (find_first(s, b) < 0 || i < find_first(s, b)) implies s[i] != b by {
            if i > 0 {
                assert(s.drop_first()[i - 1] == s[i]);
            }
        }
    }
}

/// Splitting valid UTF-8 around an ASCII byte leaves valid UTF-8 on both
/// sides.
proof fn lemma_split_at_ascii(b: Seq<u8>, j: int, i: int)
    requires
        0 <= j <= i < b.len(),
        b[i] < 0x80,
        partial_valid_utf8(b, j),
        valid_utf8(b.subrange(j, b.len() as int)),
    ensures
        valid_utf8(b.subrange(0, i)),
        valid_utf8(b.subrange(i + 1, b.len() as int)),
    decreases i - j,
{
    let rest = b.subrange(j, b.len() as int);
    assert(rest.len() > 0);
    assert(valid_first_scalar(rest) && valid_utf8(pop_first_scalar(rest)));
    let len = length_of_first_scalar(rest);
    if j == i {
        assert(rest[0] == b[i]);
        assert(len == 1);
        assert(pop_first_scalar(rest) =~= b.subrange(i + 1, b.len() as int));
    } else {
        assert(rest[i - j] == b[i]);
        assert(!is_continuation_byte(b[i]));
        assert(len <= i - j);
        vstd::utf8::partial_valid_utf8_extend(b, j);
        assert(pop_first_scalar(rest) =~= b.subrange(j + len, b.len() as int));
        lemma_split_at_ascii(b, j + len, i);
    }
}

/// `str::split_once('/')` on the bytes of a text: the parts before and
/// after the first `/`.
pub open spec fn split_owner_repo(s: Seq<u8>) -> Option<(Seq<u8>, Seq<u8>)> {
    let i = find_first(s, 47u8);
    if i < 0 {
        None
    } else {
        Some((s.subrange(0, i), s.subrange(i + 1, s.len() as int)))
    }
}

/// Splits `OWNER/REPO` at its first `/`; `None` when there is none.
pub fn parse_owner_repo(s: &str) -> (res: Option<(String, String)>)
    ensures
        match split_owner_repo(s.spec_bytes()) {
            None => res is None,
            Some((o, r)) => res matches Some((owner, repo)) && owner@ == decode_utf8(o)
                && repo@ == decode_utf8(r) && encode_utf8(owner@) == o && encode_utf8(repo@) == r,
        },
{
    let b = s.as_bytes();
    let mut i: usize = 0;
    while i < b.len() && b[i] != 47
        invariant
            i <= b@.len(),
            forall|j: int| 0 <= j < i ==> b@[j] != 47u8,
        decreases b@.len() - i,
    {
        i = i + 1;
    }
    proof {
        lemma_find_first(b@, 47u8);
        let f = find_first(b@, 47u8);
        if f >= 0 && f < i {
            assert(b@[f] == 47u8);
        }
        if i < b@.len() {
            assert(f >= 0 && f == i);
        } else {
            assert(f < 0);
        }
    }
    if i == b.len() {
        return None;
    }
    proof {
        vstd::utf8::encode_utf8_valid_utf8(s@);
        assert(b@.subrange(0, 0) =~= Seq::<u8>::empty());
        assert(b@.subrange(0, b@.len() as int) =~= b@);
        lemma_split_at_ascii(b@, 0, i as int);
        vstd::utf8::decode_utf8_encode_utf8(b@.subrange(0, i as int));
        vstd::utf8::decode_utf8_encode_utf8(b@.subrange(i + 1, b@.len() as int));
    }
    let owner = match string_from_utf8(to_vec(&b[0..i])) {
        Some(o) => o,
        None => return None,
    };
    let repo = match string_from_utf8(to_vec(&b[i + 1..b.len()])) {
        Some(r) => r,
        None => return None,
    };
    Some((owner, repo))
}

/// The bytes of `User`, GitHub's owner type of a personal account.
pub open spec fn user_bytes() -> Seq<u8> {
    seq![85u8, 115u8, 101u8, 114u8]
}

/// The bytes of `file`, GitHub's content type of a file.
pub open spec fn file_type_bytes() -> Seq<u8> {
    seq![102u8, 105u8, 108u8, 101u8]
}

/// The bytes of `lock`, the extension of encrypted files.
pub open spec fn lock_bytes() -> Seq<u8> {
    seq![108u8, 111u8, 99u8, 107u8]
}

/// The token to use: the one given on the command line, else the one in
/// the environment.
pub fn resolve_token(arg: Option<String>, env: Option<String>) -> (res: Result<String, UploadError>)
    ensures
        match arg {
            Some(t) => res == Ok::<String, UploadError>(t),
            None => match env {
                Some(t) => res == Ok::<String, UploadError>(t),
                None => res == Err::<String, UploadError>(UploadError::MissingToken),
            },
        },
{
    match arg {
        Some(t) => Ok(t),
        None => match env {
            Some(t) => Ok(t),
            None => Err(UploadError::MissingToken),
        },
    }
}

/// The owner and name of the target repository, from `OWNER/REPO`.
pub fn target_repo(github_repo: Option<&str>) -> (res: Result<(String, String), UploadError>)
    ensures
        match github_repo {
            None => res == Err::<(String, String), UploadError>(UploadError::MissingRepo),
            Some(s) => match split_owner_repo(s.spec_bytes()) {
                None => res == Err::<(String, String), UploadError>(UploadError::BadRepo),
                Some((o, r)) => res matches Ok((owner, repo)) && encode_utf8(owner@) == o
                    && encode_utf8(repo@) == r,
            },
        },
{
    let s = match github_repo {
        Some(s) => s,
        None => return Err(UploadError::MissingRepo),
    };
    match parse_owner_repo(s) {
        Some(p) => Ok(p),
        None => Err(UploadError::BadRepo),
    }
}

/// Uploads go only to the authenticated user's own repositories: the
/// target owner must be the login.
pub fn check_owner(owner: &str, login: &str) -> (res: Result<(), UploadError>)
    ensures
        res is Ok <==> owner.spec_bytes() == login.spec_bytes(),
        res matches Err(e) ==> e == UploadError::NotOwnRepo,
{
    if bytes_eq(owner.as_bytes(), login.as_bytes()) {
        Ok(())
    } else {
        Err(UploadError::NotOwnRepo)
    }
}

/// Checks the target repository's metadata: its owner, when known, must
/// be a user (`User`), not an organization. On success, tells whether the
/// repository is public (not known to be private), which deserves a
/// warning.
pub fn check_repo_meta(owner_type: Option<&str>, private: Option<bool>) -> (res: Result<bool, UploadError>)
    ensures
        match owner_type {
            Some(t) if t.spec_bytes() != user_bytes() => res == Err::<bool, UploadError>(
                UploadError::OrganizationRepo,
            ),
            _ => res == Ok::<bool, UploadError>(!(private == Some(true))),
        },
{
    if let Some(t) = owner_type {
        let user: [u8; 4] = [85, 115, 101, 114];
        assert(user@ =~= user_bytes());
        if !bytes_eq(t.as_bytes(), &user) {
            return Err(UploadError::OrganizationRepo);
        }
    }
    let is_private = match private {
        Some(p) => p,
        None => false,
    };
    Ok(!is_private)
}

/// Whether a provider can be uploaded to: only GitHub is implemented.
pub fn check_provider(provider: &crate::options::Provider) -> (res: Result<(), UploadError>)
    ensures
        match provider {
            crate::options::Provider::Github => res is Ok,
            _ => res == Err::<(), UploadError>(UploadError::UnsupportedProvider),
        },
{
    match provider {
        crate::options::Provider::Github => Ok(()),
        _ => Err(UploadError::UnsupportedProvider),
    }
}

/// A `.lock` file: its extension is `lock`, ignoring ASCII case.
pub open spec fn lock_file(p: Seq<u8>) -> bool {
    match extension(p) {
        Some(e) => eq_ignore_ascii_case(e, lock_bytes()),
        None => false,
    }
}

/// Whether `path` has the extension `lock`, ignoring ASCII case.
pub fn is_lock_file(path: &[u8]) -> (res: bool)
    ensures
        res == lock_file(path@),
{
    let lock: [u8; 4] = [108, 111, 99, 107];
    assert(lock@ =~= lock_bytes());
    match extension_span(path) {
        Some((s, e)) => eq_ignore_case_at(path, s, e, &lock),
        None => false,
    }
}

/// `s` with every `\` replaced by `/`.
pub open spec fn forward_slashes(s: Seq<u8>) -> Seq<u8> {
    Seq::new(s.len(), |i: int| if s[i] == 92u8 { 47u8 } else { s[i] })
}

/// The name under which a walked entry of `root` is uploaded, if it is
/// uploaded at all: regular files with the extension `lock`, named by their
/// path relative to `root` with `\` turned into `/`, read as UTF-8 (invalid
/// sequences replaced). Replacing before or after the conversion is the
/// same, as `\` is ASCII.
pub fn upload_candidate(root: &[u8], path: &[u8], is_file: bool) -> (res: Result<Option<String>, PlanError>)
    ensures
        !(is_file && lock_file(path@)) ==> res matches Ok(None),
        is_file && lock_file(path@) ==> match relative_to(root@, path@) {
            None => res matches Err(PlanError::RelativePath(p)) && p@ == path@,
            Some(rel) => res matches Ok(Some(name)) && name@ == utf8_lossy(forward_slashes(rel)) && (
            valid_utf8(forward_slashes(rel)) ==> name@ == decode_utf8(forward_slashes(rel))),
        },
{
    if !is_file || !is_lock_file(path) {
        return Ok(None);
    }
    let rel = match relative_path(root, path) {
        Some(r) => r,
        None => return Err(PlanError::RelativePath(to_vec(path))),
    };
    let mut out: Vec<u8> = Vec::new();
    let mut i: usize = 0;
    while i < rel.len()
        invariant
            i <= rel@.len(),
            out@ =~= forward_slashes(rel@).subrange(0, i as int),
        decreases rel@.len() - i,
    {
        let b = rel[i];
        out.push(if b == 92 {
            47
        } else {
            b
        });
        i = i + 1;
    }
    assert(forward_slashes(rel@).subrange(0, rel@.len() as int) =~= forward_slashes(rel@));
    Ok(Some(string_from_utf8_lossy(out.as_slice())))
}

/// Sum of a sequence of sizes.
pub open spec fn sum_sizes(sizes: Seq<u64>) -> nat
    decreases sizes.len(),
{
    if sizes.len() == 0 {
        0
    } else {
        sum_sizes(sizes.drop_last()) + sizes.last() as nat
    }
}

/// The total size of the files to upload.
pub fn total_size(sizes: &Vec<u64>) -> (res: u64)
    requires
        sum_sizes(sizes@) <= u64::MAX,
    ensures
        res == sum_sizes(sizes@),
{
    let mut total: u64 = 0;
    let mut i: usize = 0;
    while i < sizes.len()
        invariant
            i <= sizes@.len(),
            sum_sizes(sizes@) <= u64::MAX,
            total == sum_sizes(sizes@.subrange(0, i as int)),
        decreases sizes@.len() - i,
    {
        proof {
            assert(sizes@.subrange(0, i + 1).drop_last() =~= sizes@.subrange(0, i as int));
            lemma_sum_prefix(sizes@, i + 1);
        }
        total = total + sizes[i];
        i = i + 1;
    }
    assert(sizes@.subrange(0, sizes@.len() as int) =~= sizes@);
    total
}

/// The sum of a prefix is at most the sum of the whole.
proof fn lemma_sum_prefix(sizes: Seq<u64>, k: int)
    requires
        0 <= k <= sizes.len(),
    ensures
        sum_sizes(sizes.subrange(0, k)) <= sum_sizes(sizes),
    decreases sizes.len() - k,
{
    if k < sizes.len() {
        assert(sizes.subrange(0, k + 1).drop_last() =~= sizes.subrange(0, k));
        lemma_sum_prefix(sizes, k + 1);
    } else {
        assert(sizes.subrange(0, k) =~= sizes);
    }
}

/// Counts of an upload run.
#[derive(Debug, Clone, Copy, PartialEq, Eq)]
pub struct UploadTally {
    pub uploaded: usize,
    pub failed: usize,
    pub uploaded_bytes: u64,
}

impl UploadTally {
    /// Nothing uploaded, nothing failed.
    pub fn new() -> (res: Self)
        ensures
            res.uploaded == 0 && res.failed == 0 && res.uploaded_bytes == 0,
    {
        UploadTally { uploaded: 0, failed: 0, uploaded_bytes: 0 }
    }

    /// Records the outcome of one file's upload: a success counts the file
    /// and its size, a failure counts the file as failed.
    pub fn record(&mut self, ok: bool, size: u64)
        requires
            old(self).uploaded + old(self).failed < usize::MAX,
            ok ==> old(self).uploaded_bytes + size <= u64::MAX,
        ensures
            ok ==> *final(self) == (UploadTally {
                uploaded: (old(self).uploaded + 1) as usize,
                failed: old(self).failed,
                uploaded_bytes: (old(self).uploaded_bytes + size) as u64,
            }),
            !ok ==> *final(self) == (UploadTally {
                uploaded: old(self).uploaded,
                failed: (old(self).failed + 1) as usize,
                uploaded_bytes: old(self).uploaded_bytes,
            }),
    {
        if ok {
            self.uploaded = self.uploaded + 1;
            self.uploaded_bytes = self.uploaded_bytes + size;
        } else {
            self.failed = self.failed + 1;
        }
    }

    /// The run fails when any file failed to upload.
    pub fn outcome(&self) -> (res: Result<(), UploadError>)
        ensures
            self.failed == 0 ==> res is Ok,
            self.failed > 0 ==> res == Err::<(), UploadError>(UploadError::Failed(self.failed)),
    {
        if self.failed > 0 {
            Err(UploadError::Failed(self.failed))
        } else {
            Ok(())
        }
    }
}

/// How a file is committed: created, or updated over the existing blob
/// with this SHA.
#[derive(Debug, Clone, PartialEq, Eq)]
pub enum CommitAction {
    Create,
    Update(String),
}

/// The SHA of the first listed content item whose type is `file`, given
/// the (type, SHA) of each item that a contents lookup returned.
pub fn existing_file_sha(items: &Vec<(String, String)>) -> (res: Option<String>)
    ensures
        match res {
            Some(sha) => exists|i: int|
                0 <= i < items@.len() && encode_utf8(items@[i].0@) == file_type_bytes() && sha@
                    == items@[i].1@ && (forall|j: int|
                    0 <= j < i ==> encode_utf8(#[trigger] items@[j].0@) != file_type_bytes()),
            None => forall|i: int|
                0 <= i < items@.len() ==> encode_utf8(#[trigger] items@[i].0@) != file_type_bytes(),
        },
{
    let file: [u8; 4] = [102, 105, 108, 101];
    assert(file@ =~= file_type_bytes());
    let mut i: usize = 0;
    while i < items.len()
        invariant
            i <= items@.len(),
            file@ == file_type_bytes(),
            forall|j: int| 0 <= j < i ==> encode_utf8(#[trigger] items@[j].0@) != file_type_bytes(),
        decreases items@.len() - i,
    {
        let t = items[i].0.as_str();
        if bytes_eq(t.as_bytes(), &file) {
            let sha = items[i].1.clone();
            return Some(sha);
        }
        i = i + 1;
    }
    None
}

/// The commit message for a file: `Update <path>` over an existing file,
/// `Add <path>` for a new one.
pub fn commit_message(action: &CommitAction, remote_path: &str) -> (res: String)
    ensures
        match action {
            CommitAction::Update(_) => res@ == "Update "@ + remote_path@,
            CommitAction::Create => res@ == "Add "@ + remote_path@,
        },
{
    let mut msg = match action {
        CommitAction::Update(_) => String::from_str("Update "),
        CommitAction::Create => String::from_str("Add "),
    };
    msg.append(remote_path);
    msg
}

/// Whether a failed contents lookup is worth a warning: every failure
/// except GitHub's "not found" (404), which only means the file is new.
pub fn lookup_warns(github_status: Option<u16>) -> (res: bool)
    ensures
        res == (github_status != Some(404u16)),
{
    match github_status {
        Some(s) => s != 404,
        None => true,
    }
}

/// What is sent for one file: how it is committed and its contents in
/// standard base64, as GitHub's contents API takes them.
pub fn prepare_upload(content: &[u8], existing_sha: Option<String>) -> (res: (CommitAction, String))
    ensures
        res.1@ == base64_standard(content@),
        match existing_sha {
            Some(sha) => res.0 == CommitAction::Update(sha),
            None => res.0 == CommitAction::Create,
        },
{
    let encoded = base64_encode(content);
    let action = match existing_sha {
        Some(sha) => CommitAction::Update(sha),
        None => CommitAction::Create,
    };
    (action, encoded)
}


/// The remote name keeps every byte of the relative path in place, except
/// that each `\` (0x5C) becomes `/` (0x2F): letters keep their case, and
/// a path without `\` is uploaded under exactly its own bytes.
pub proof fn lemma_remote_name_bytes(rel: Seq<u8>)
    ensures
        forward_slashes(rel).len() == rel.len(),
        forall|i: int|
            0 <= i < rel.len() ==> (rel[i] == 0x5Cu8 ==> #[trigger] forward_slashes(rel)[i] == 0x2Fu8) && (
            rel[i] != 0x5Cu8 ==> forward_slashes(rel)[i] == rel[i]),
        (forall|i: int| 0 <= i < rel.len() ==> rel[i] != 0x5Cu8) ==> forward_slashes(rel) == rel,
{
    if forall|i: int| 0 <= i < rel.len() ==> rel[i] != 0x5Cu8 {
        assert(forward_slashes(rel) =~= rel);
    }
}


/// A `.lock` file is one whose extension is `lock` (6C 6F 63 6B), ignoring
/// ASCII case.
pub proof fn lemma_lock_file_extension(p: Seq<u8>)
    ensures
        lock_file(p) == (extension(p) matches Some(e) && eq_ignore_ascii_case(
            e,
            seq![0x6Cu8, 0x6Fu8, 0x63u8, 0x6Bu8],
        )),
{
    assert(lock_bytes() =~= seq![0x6Cu8, 0x6Fu8, 0x63u8, 0x6Bu8]);
}

} // verus!
