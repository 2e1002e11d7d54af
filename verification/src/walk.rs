//! Planning of encryption and decryption runs: which walked files are
//! processed and where each result is written.
use vstd::prelude::*;
use crate::bytes::{append_bytes, has_prefix, starts_with, to_vec};
use crate::paths::{
    is_dot_dot, lemma_rfind, name_span, rfind, sep, skipped_component,
    extension, extension_span, file_name, file_name_span, file_stem, file_stem_span, push,
    push_path, set_file_name, set_file_name_path,
};
use crate::utils::{eq_ignore_ascii_case, eq_ignore_case_at, hidden, image, is_hidden, is_image};

verus! {

/// One planned file: where it is read and where its result is written.
#[derive(Debug, Clone)]
pub struct PlanEntry {
    pub src: Vec<u8>,
    pub dst: Vec<u8>,
}

/// An entry produced by walking the input tree: its full path and whether
/// it is a directory.
#[derive(Debug, Clone)]
pub struct WalkEntry {
    pub path: Vec<u8>,
    pub is_dir: bool,
}

/// Why a plan could not be built.
#[derive(Debug, Clone, PartialEq, Eq)]
pub enum PlanError {
    /// The walked path does not lie under the input root.
    RelativePath(Vec<u8>),
}

impl PlanEntry {
    pub open spec fn view(&self) -> (Seq<u8>, Seq<u8>) {
        (self.src@, self.dst@)
    }
}

/// The bytes of `file`, used where a path has no file name.
pub open spec fn default_name() -> Seq<u8> {
    seq![102u8, 105u8, 108u8, 101u8]
}

/// `path` relative to `root`, as `Path::strip_prefix` gives it for the
/// paths a walk of `root` yields: what follows `root` and the separators
/// after it; `None` when `path` does not continue `root` at a component
/// boundary.
pub open spec fn relative_to(root: Seq<u8>, path: Seq<u8>) -> Option<Seq<u8>> {
    if !starts_with(path, root) {
        None
    } else {
        let rest = path.subrange(root.len() as int, path.len() as int);
        if rest.len() == 0 || (root.len() > 0 && root.last() == 47u8) || rest[0] == 47u8 {
            Some(rest.subrange(leading_seps(rest), rest.len() as int))
        } else {
            None
        }
    }
}

/// Number of separators at the start of `s`.
pub open spec fn leading_seps(s: Seq<u8>) -> int
    decreases s.len(),
{
    if s.len() > 0 && s[0] == 47u8 {
        1 + leading_seps(s.drop_first())
    } else {
        0
    }
}

/// `s` without its leading `.` bytes (`trim_start_matches('.')`).
pub open spec fn trim_leading_dots(s: Seq<u8>) -> Seq<u8>
    decreases s.len(),
{
    if s.len() > 0 && s[0] == 46u8 {
        trim_leading_dots(s.drop_first())
    } else {
        s
    }
}

/// A walk entry is kept when hidden entries are included or it is not hidden.
pub open spec fn visible(path: Seq<u8>, include_hidden: bool) -> bool {
    include_hidden || !hidden(path)
}

/// Files that an encryption run processes.
pub open spec fn encrypt_selected(e: WalkEntry, include_hidden: bool) -> bool {
    !e.is_dir && visible(e.path@, include_hidden) && image(e.path@)
}

/// Files that a decryption run processes: their extension equals `enc_ext`
/// without its leading dots, ignoring ASCII case.
pub open spec fn decrypt_selected(e: WalkEntry, include_hidden: bool, enc_ext: Seq<u8>) -> bool {
    &&& !e.is_dir
    &&& visible(e.path@, include_hidden)
    &&& match extension(e.path@) {
        Some(x) => eq_ignore_ascii_case(x, trim_leading_dots(enc_ext)),
        None => false,
    }
}

/// Destination of an encrypted file: `rel` under `out_root`, with `enc_ext`
/// appended to its file name.
pub open spec fn encrypt_dst(out_root: Seq<u8>, rel: Seq<u8>, enc_ext: Seq<u8>) -> Seq<u8> {
    let d = push(out_root, rel);
    let base = match file_name(d) {
        Some(n) => n,
        None => default_name(),
    };
    set_file_name(d, base + enc_ext)
}

/// Destination of a decrypted file: `rel` under `out_root`, with the file
/// name replaced by the stem of `src` (its name without the final extension).
pub open spec fn decrypt_dst(out_root: Seq<u8>, rel: Seq<u8>, src: Seq<u8>) -> Seq<u8> {
    let d = push(out_root, rel);
    let name = match file_stem(src) {
        Some(s) => if s.len() > 0 {
            s
        } else {
            default_name()
        },
        None => default_name(),
    };
    set_file_name(d, name)
}

/// The encryption plan for the walked entries, in walk order: the first
/// selected entry outside `in_root` is an error.
pub open spec fn encrypt_plan(
    in_root: Seq<u8>,
    out_root: Seq<u8>,
    entries: Seq<WalkEntry>,
    include_hidden: bool,
    enc_ext: Seq<u8>,
) -> Result<Seq<(Seq<u8>, Seq<u8>)>, Seq<u8>>
    decreases entries.len(),
{
    if entries.len() == 0 {
        Ok(Seq::empty())
    } else {
        match encrypt_plan(in_root, out_root, entries.drop_last(), include_hidden, enc_ext) {
            Err(p) => Err(p),
            Ok(ps) => {
                let e = entries.last();
                if encrypt_selected(e, include_hidden) {
                    match relative_to(in_root, e.path@) {
                        Some(rel) => Ok(ps.push((e.path@, encrypt_dst(out_root, rel, enc_ext)))),
                        None => Err(e.path@),
                    }
                } else {
                    Ok(ps)
                }
            },
        }
    }
}

/// The decryption plan for the walked entries, in walk order.
pub open spec fn decrypt_plan(
    in_root: Seq<u8>,
    out_root: Seq<u8>,
    entries: Seq<WalkEntry>,
    include_hidden: bool,
    enc_ext: Seq<u8>,
) -> Result<Seq<(Seq<u8>, Seq<u8>)>, Seq<u8>>
    decreases entries.len(),
{
    if entries.len() == 0 {
        Ok(Seq::empty())
    } else {
        match decrypt_plan(in_root, out_root, entries.drop_last(), include_hidden, enc_ext) {
            Err(p) => Err(p),
            Ok(ps) => {
                let e = entries.last();
                if decrypt_selected(e, include_hidden, enc_ext) {
                    match relative_to(in_root, e.path@) {
                        Some(rel) => Ok(ps.push((e.path@, decrypt_dst(out_root, rel, e.path@)))),
                        None => Err(e.path@),
                    }
                } else {
                    Ok(ps)
                }
            },
        }
    }
}

/// The views of the planned entries.
pub open spec fn plan_view(plan: Seq<PlanEntry>) -> Seq<(Seq<u8>, Seq<u8>)> {
    plan.map_values(|p: PlanEntry| p.view())
}

/// Whether the walker keeps this entry and, for a directory, descends into
/// it: everything when `include_hidden`, otherwise only entries whose final
/// component does not start with `.`.
pub fn should_descend(path: &[u8], include_hidden: bool) -> (res: bool)
    ensures
        res == visible(path@, include_hidden),
{
    if include_hidden {
        true
    } else {
        !is_hidden(path)
    }
}

/// `path` relative to `root` (see [`relative_to`]).
pub fn relative_path(root: &[u8], path: &[u8]) -> (res: Option<Vec<u8>>)
    ensures
        match res {
            Some(r) => relative_to(root@, path@) == Some(r@),
            None => relative_to(root@, path@) is None,
        },
{
    if !has_prefix(path, root) {
        return None;
    }
    let n = root.len();
    let rest = &path[n..path.len()];
    let ok = rest.len() == 0 || (n > 0 && root[n - 1] == 47) || rest[0] == 47;
    if !ok {
        return None;
    }
    let mut k: usize = 0;
    assert(rest@.subrange(0, rest@.len() as int) =~= rest@);
    while k < rest.len() && rest[k] == 47
        invariant
            k <= rest@.len(),
            forall|j: int| 0 <= j < k ==> rest@[j] == 47u8,
            leading_seps(rest@) == k + leading_seps(rest@.subrange(k as int, rest@.len() as int)),
        decreases rest@.len() - k,
    {
        assert(rest@.subrange(k as int, rest@.len() as int).drop_first() =~= rest@.subrange(
            k + 1,
            rest@.len() as int,
        ));
        k = k + 1;
    }
    proof {
        let t = rest@.subrange(k as int, rest@.len() as int);
        assert(leading_seps(t) == 0) by {
            if t.len() > 0 {
                assert(t[0] == rest@[k as int]);
            }
        }
    }
    Some(to_vec(&rest[k..rest.len()]))
}

/// The bytes `file`.
fn default_name_bytes() -> (r: Vec<u8>)
    ensures
        r@ == default_name(),
{
    let r = vec![102u8, 105u8, 108u8, 101u8];
    assert(r@ =~= default_name());
    r
}

/// Destination of an encrypted file (see [`encrypt_dst`]).
pub fn encrypt_destination(out_root: &[u8], rel: &[u8], enc_ext: &[u8]) -> (res: Vec<u8>)
    ensures
        res@ == encrypt_dst(out_root@, rel@, enc_ext@),
{
    let d = push_path(out_root, rel);
    let mut name: Vec<u8> = match file_name_span(d.as_slice()) {
        Some((s, e)) => to_vec(&d.as_slice()[s..e]),
        None => default_name_bytes(),
    };
    append_bytes(&mut name, enc_ext);
    set_file_name_path(d.as_slice(), name.as_slice())
}

/// Destination of a decrypted file (see [`decrypt_dst`]).
pub fn decrypt_destination(out_root: &[u8], rel: &[u8], src: &[u8]) -> (res: Vec<u8>)
    ensures
        res@ == decrypt_dst(out_root@, rel@, src@),
{
    let d = push_path(out_root, rel);
    let name: Vec<u8> = match file_stem_span(src) {
        Some((s, e)) => if e > s {
            to_vec(&src[s..e])
        } else {
            default_name_bytes()
        },
        None => default_name_bytes(),
    };
    set_file_name_path(d.as_slice(), name.as_slice())
}

/// Number of leading `.` bytes of `s`.
fn leading_dots(s: &[u8]) -> (k: usize)
    ensures
        k <= s@.len(),
        trim_leading_dots(s@) == s@.subrange(k as int, s@.len() as int),
{
    let mut k: usize = 0;
    assert(s@.subrange(0, s@.len() as int) =~= s@);
    while k < s.len() && s[k] == 46
        invariant
            k <= s@.len(),
            trim_leading_dots(s@) == trim_leading_dots(s@.subrange(k as int, s@.len() as int)),
        decreases s@.len() - k,
    {
        assert(s@.subrange(k as int, s@.len() as int).drop_first() =~= s@.subrange(
            k + 1,
            s@.len() as int,
        ));
        k = k + 1;
    }
    k
}

/// Builds the plan of (source, destination) paths for all image files among
/// the walked `entries` of `input_root`. Each destination mirrors the
/// source under `output_root`, with `enc_ext` appended to its file name
/// ("photo.jpg" becomes "photo.jpg.lock").
pub fn build_encrypt_plan(
    input_root: &[u8],
    output_root: &[u8],
    entries: &Vec<WalkEntry>,
    include_hidden: bool,
    enc_ext: &[u8],
) -> (res: Result<Vec<PlanEntry>, PlanError>)
    ensures
        match res {
            Ok(plan) => encrypt_plan(input_root@, output_root@, entries@, include_hidden, enc_ext@)
                == Ok::<Seq<(Seq<u8>, Seq<u8>)>, Seq<u8>>(plan_view(plan@)),
            Err(PlanError::RelativePath(p)) => encrypt_plan(
                input_root@,
                output_root@,
                entries@,
                include_hidden,
                enc_ext@,
            ) == Err::<Seq<(Seq<u8>, Seq<u8>)>, Seq<u8>>(p@),
        },
{
    let mut plan: Vec<PlanEntry> = Vec::new();
    let mut i: usize = 0;
    assert(plan_view(plan@) =~= Seq::<(Seq<u8>, Seq<u8>)>::empty());
    while i < entries.len()
        invariant
            i <= entries@.len(),
            encrypt_plan(
                input_root@,
                output_root@,
                entries@.subrange(0, i as int),
                include_hidden,
                enc_ext@,
            ) == Ok::<Seq<(Seq<u8>, Seq<u8>)>, Seq<u8>>(plan_view(plan@)),
        decreases entries@.len() - i,
    {
        let e = &entries[i];
        let ghost prev = plan@;
        proof {
            assert(entries@.subrange(0, i + 1).drop_last() =~= entries@.subrange(0, i as int));
            assert(entries@.subrange(0, i + 1).last() == entries@[i as int]);
        }
        if !e.is_dir && should_descend(e.path.as_slice(), include_hidden) && is_image(
            e.path.as_slice(),
        ) {
            match relative_path(input_root, e.path.as_slice()) {
                Some(rel) => {
                    let dst = encrypt_destination(output_root, rel.as_slice(), enc_ext);
                    let src = to_vec(e.path.as_slice());
                    plan.push(PlanEntry { src, dst });
                    assert(plan_view(plan@) =~= plan_view(prev).push(
                        (e.path@, encrypt_dst(output_root@, rel@, enc_ext@)),
                    ));
                },
                None => {
                    let p = to_vec(e.path.as_slice());
                    proof {
                        lemma_plan_error_persists_encrypt(
                            input_root@,
                            output_root@,
                            entries@,
                            include_hidden,
                            enc_ext@,
                            i + 1,
                        );
                    }
                    return Err(PlanError::RelativePath(p));
                },
            }
        }
        i = i + 1;
    }
    assert(entries@.subrange(0, entries@.len() as int) =~= entries@);
    Ok(plan)
}

/// Once the plan of a prefix of the entries is an error, the plan of the
/// whole sequence is the same error.
proof fn lemma_plan_error_persists_encrypt(
    in_root: Seq<u8>,
    out_root: Seq<u8>,
    entries: Seq<WalkEntry>,
    include_hidden: bool,
    enc_ext: Seq<u8>,
    k: int,
)
    requires
        0 <= k <= entries.len(),
        encrypt_plan(in_root, out_root, entries.subrange(0, k), include_hidden, enc_ext) is Err,
    ensures
        encrypt_plan(in_root, out_root, entries, include_hidden, enc_ext) == encrypt_plan(
            in_root,
            out_root,
            entries.subrange(0, k),
            include_hidden,
            enc_ext,
        ),
    decreases entries.len() - k,
{
    if k < entries.len() {
        assert(entries.subrange(0, k + 1).drop_last() =~= entries.subrange(0, k));
        lemma_plan_error_persists_encrypt(in_root, out_root, entries, include_hidden, enc_ext, k + 1);
    } else {
        assert(entries.subrange(0, k) =~= entries);
    }
}

/// Once the plan of a prefix of the entries is an error, the plan of the
/// whole sequence is the same error.
proof fn lemma_plan_error_persists_decrypt(
    in_root: Seq<u8>,
    out_root: Seq<u8>,
    entries: Seq<WalkEntry>,
    include_hidden: bool,
    enc_ext: Seq<u8>,
    k: int,
)
    requires
        0 <= k <= entries.len(),
        decrypt_plan(in_root, out_root, entries.subrange(0, k), include_hidden, enc_ext) is Err,
    ensures
        decrypt_plan(in_root, out_root, entries, include_hidden, enc_ext) == decrypt_plan(
            in_root,
            out_root,
            entries.subrange(0, k),
            include_hidden,
            enc_ext,
        ),
    decreases entries.len() - k,
{
    if k < entries.len() {
        assert(entries.subrange(0, k + 1).drop_last() =~= entries.subrange(0, k));
        lemma_plan_error_persists_decrypt(in_root, out_root, entries, include_hidden, enc_ext, k + 1);
    } else {
        assert(entries.subrange(0, k) =~= entries);
    }
}

/// Builds the plan of (source, destination) paths for all encrypted files
/// among the walked `entries` of `input_root`: files whose extension is
/// `enc_ext` (without its leading dot, ignoring ASCII case). Each
/// destination mirrors the source under `output_root` with the encryption
/// suffix stripped ("photo.jpg.lock" becomes "photo.jpg").
pub fn build_decrypt_plan(
    input_root: &[u8],
    output_root: &[u8],
    entries: &Vec<WalkEntry>,
    include_hidden: bool,
    enc_ext: &[u8],
) -> (res: Result<Vec<PlanEntry>, PlanError>)
    ensures
        match res {
            Ok(plan) => decrypt_plan(input_root@, output_root@, entries@, include_hidden, enc_ext@)
                == Ok::<Seq<(Seq<u8>, Seq<u8>)>, Seq<u8>>(plan_view(plan@)),
            Err(PlanError::RelativePath(p)) => decrypt_plan(
                input_root@,
                output_root@,
                entries@,
                include_hidden,
                enc_ext@,
            ) == Err::<Seq<(Seq<u8>, Seq<u8>)>, Seq<u8>>(p@),
        },
{
    let dots = leading_dots(enc_ext);
    let ext_no_dot = &enc_ext[dots..enc_ext.len()];
    let mut plan: Vec<PlanEntry> = Vec::new();
    let mut i: usize = 0;
    assert(plan_view(plan@) =~= Seq::<(Seq<u8>, Seq<u8>)>::empty());
    while i < entries.len()
        invariant
            i <= entries@.len(),
            ext_no_dot@ == trim_leading_dots(enc_ext@),
            decrypt_plan(
                input_root@,
                output_root@,
                entries@.subrange(0, i as int),
                include_hidden,
                enc_ext@,
            ) == Ok::<Seq<(Seq<u8>, Seq<u8>)>, Seq<u8>>(plan_view(plan@)),
        decreases entries@.len() - i,
    {
        let e = &entries[i];
        let ghost prev = plan@;
        proof {
            assert(entries@.subrange(0, i + 1).drop_last() =~= entries@.subrange(0, i as int));
            assert(entries@.subrange(0, i + 1).last() == entries@[i as int]);
        }
        let is_enc = match extension_span(e.path.as_slice()) {
            Some((s, t)) => eq_ignore_case_at(e.path.as_slice(), s, t, ext_no_dot),
            None => false,
        };
        if !e.is_dir && should_descend(e.path.as_slice(), include_hidden) && is_enc {
            match relative_path(input_root, e.path.as_slice()) {
                Some(rel) => {
                    let dst = decrypt_destination(output_root, rel.as_slice(), e.path.as_slice());
                    let src = to_vec(e.path.as_slice());
                    plan.push(PlanEntry { src, dst });
                    assert(plan_view(plan@) =~= plan_view(prev).push(
                        (e.path@, decrypt_dst(output_root@, rel@, e.path@)),
                    ));
                },
                None => {
                    let p = to_vec(e.path.as_slice());
                    proof {
                        lemma_plan_error_persists_decrypt(
                            input_root@,
                            output_root@,
                            entries@,
                            include_hidden,
                            enc_ext@,
                            i + 1,
                        );
                    }
                    return Err(PlanError::RelativePath(p));
                },
            }
        }
        i = i + 1;
    }
    assert(entries@.subrange(0, entries@.len() as int) =~= entries@);
    Ok(plan)
}

/// The bytes of `.lock`.
pub open spec fn lock_ext() -> Seq<u8> {
    seq![46u8, 108u8, 111u8, 99u8, 107u8]
}

/// `rfind` finds an occurrence followed by none.
pub(crate) proof fn lemma_rfind_at(p: Seq<u8>, b: u8, k: int)
    requires
        -1 <= k < p.len(),
        k >= 0 ==> p[k] == b,
        forall|i: int| k < i < p.len() ==> p[i] != b,
    ensures
        rfind(p, b) == k,
    decreases p.len(),
{
    if p.len() > 0 && k < p.len() - 1 {
        assert forall|i: int| k < i < p.drop_last().len() implies p.drop_last()[i] != b by {
            assert(p.drop_last()[i] == p[i]);
        }
        lemma_rfind_at(p.drop_last(), b, k);
    }
}

/// The span of the final component lies within the path, holds no
/// separator, and is neither empty nor `.`.
pub proof fn lemma_name_span(p: Seq<u8>)
    ensures
        name_span(p) matches Some((s, e)) ==> {
            &&& 0 <= s < e <= p.len()
            &&& forall|i: int| s <= i < e ==> p[i] != sep()
            &&& !skipped_component(p.subrange(s, e))
        },
    decreases p.len(),
{
    if p.len() > 0 {
        let k = rfind(p, sep());
        lemma_rfind(p, sep());
        if skipped_component(p.subrange(k + 1, p.len() as int)) {
            if k >= 0 {
                lemma_name_span(p.subrange(0, k));
                if let Some((s, e)) = name_span(p.subrange(0, k)) {
                    assert(p.subrange(0, k).subrange(s, e) =~= p.subrange(s, e));
                    assert forall|i: int| s <= i < e implies p[i] != sep() by {
                        assert(p.subrange(0, k)[i] == p[i]);
                    }
                }
            }
        }
    }
}

/// A file name holds no separator.
pub proof fn lemma_file_name_has_no_sep(p: Seq<u8>)
    ensures
        file_name(p) matches Some(n) ==> n.len() > 0 && forall|i: int| 0 <= i < n.len() ==> n[i] != sep(),
{
    lemma_name_span(p);
    if let Some((s, e)) = name_span(p) {
        let n = p.subrange(s, e);
        assert forall|i: int| 0 <= i < n.len() implies n[i] != sep() by {
            assert(n[i] == p[s + i]);
        }
    }
}

/// Pushing a plain name (no separator, not `.` or `..`) makes it the file
/// name.
pub proof fn lemma_file_name_of_push(q: Seq<u8>, name: Seq<u8>)
    requires
        name.len() > 0,
        forall|i: int| 0 <= i < name.len() ==> name[i] != sep(),
        !skipped_component(name),
        !is_dot_dot(name),
    ensures
        file_name(push(q, name)) == Some(name),
{
    let r = push(q, name);
    let k = r.len() - name.len() - 1;
    assert(r.subrange(k + 1, r.len() as int) =~= name);
    assert forall|i: int| k < i < r.len() implies r[i] != sep() by {
        assert(r[i] == name[i - k - 1]);
    }
    if q.len() > 0 && q.last() != sep() {
        assert(r[k] == sep());
        lemma_rfind_at(r, sep(), k);
    } else if q.len() > 0 {
        assert(r[k] == q.last());
        lemma_rfind_at(r, sep(), k);
    } else {
        assert(k == -1);
        lemma_rfind_at(r, sep(), k);
    }
}

/// Appending `.lock` to a file name, then taking the extension and the
/// stem, gives `lock` and the file name back: "photo.jpg" is encrypted to
/// "photo.jpg.lock", which is selected for decryption and decrypted to
/// "photo.jpg".
pub proof fn lemma_lock_name_round_trip(n: Seq<u8>)
    requires
        n.len() > 0,
        forall|i: int| 0 <= i < n.len() ==> n[i] != sep(),
    ensures
        file_name(n + lock_ext()) == Some(n + lock_ext()),
        extension(n + lock_ext()) == Some(lock_ext().subrange(1, 5)),
        file_stem(n + lock_ext()) == Some(n),
        eq_ignore_ascii_case(lock_ext().subrange(1, 5), trim_leading_dots(lock_ext())),
{
    let x = n + lock_ext();
    assert(!skipped_component(x));
    assert(!is_dot_dot(x));
    assert forall|i: int| 0 <= i < x.len() implies x[i] != sep() by {
        if i < n.len() {
            assert(x[i] == n[i]);
        }
    }
    lemma_file_name_of_push(Seq::empty(), x);
    assert(push(Seq::empty(), x) =~= x);
    assert forall|i: int| n.len() < i < x.len() implies x[i] != 46u8 by {}
    lemma_rfind_at(x, 46u8, n.len() as int);
    assert(x.subrange(n.len() as int + 1, x.len() as int) =~= lock_ext().subrange(1, 5));
    assert(x.subrange(0, n.len() as int) =~= n);
    assert(lock_ext().drop_first() =~= lock_ext().subrange(1, 5));
    assert(trim_leading_dots(lock_ext().subrange(1, 5)) == lock_ext().subrange(1, 5));
}

/// The destination of an encrypted file is named like its mirrored source
/// with `.lock` appended.
pub proof fn lemma_encrypt_dst_name(out_root: Seq<u8>, rel: Seq<u8>)
    ensures
        file_name(encrypt_dst(out_root, rel, lock_ext())) == Some(
            match file_name(push(out_root, rel)) {
                Some(n) => n,
                None => default_name(),
            } + lock_ext(),
        ),
{
    let d = push(out_root, rel);
    let base = match file_name(d) {
        Some(n) => n,
        None => default_name(),
    };
    lemma_file_name_has_no_sep(d);
    let name = base + lock_ext();
    assert forall|i: int| 0 <= i < name.len() implies name[i] != sep() by {
        if i < base.len() {
            assert(name[i] == base[i]);
        }
    }
    assert(!skipped_component(name));
    assert(!is_dot_dot(name));
    let q = match name_span(d) {
        Some((s, e)) => if is_dot_dot(d.subrange(s, e)) {
            d
        } else {
            crate::paths::parent_before(d, s)
        },
        None => d,
    };
    lemma_file_name_of_push(q, name);
}

/// The destination of a decrypted file is named by the stem of its source.
pub proof fn lemma_decrypt_dst_name(out_root: Seq<u8>, rel: Seq<u8>, src: Seq<u8>)
    requires
        file_stem(src) matches Some(s) && s.len() > 0 && !skipped_component(s) && !is_dot_dot(s),
    ensures
        file_name(decrypt_dst(out_root, rel, src)) == file_stem(src),
{
    let d = push(out_root, rel);
    let s = file_stem(src).unwrap();
    lemma_file_name_has_no_sep(src);
    let n = file_name(src).unwrap();
    lemma_rfind(n, 46u8);
    assert forall|i: int| 0 <= i < s.len() implies s[i] != sep() by {
        let dd = rfind(n, 46u8);
        if dd > 0 {
            assert(s[i] == n[i]);
        }
    }
    lemma_name_span(d);
    let q = match name_span(d) {
        Some((a, e)) => if is_dot_dot(d.subrange(a, e)) {
            d
        } else {
            crate::paths::parent_before(d, a)
        },
        None => d,
    };
    lemma_file_name_of_push(q, s);
}

/// Every file in an encryption plan is a walked entry that is selected: not
/// a directory, an image, and not hidden unless hidden files are included.
pub proof fn lemma_encrypt_plan_selects(
    in_root: Seq<u8>,
    out_root: Seq<u8>,
    entries: Seq<WalkEntry>,
    include_hidden: bool,
    enc_ext: Seq<u8>,
)
    ensures
        encrypt_plan(in_root, out_root, entries, include_hidden, enc_ext) matches Ok(ps) ==> forall|i: int|
            #![trigger ps[i]]
            0 <= i < ps.len() ==> exists|j: int|
                0 <= j < entries.len() && (#[trigger] entries[j]).path@ == ps[i].0 && encrypt_selected(
                    entries[j],
                    include_hidden,
                ),
    decreases entries.len(),
{
    if entries.len() > 0 {
        let prev = entries.drop_last();
        lemma_encrypt_plan_selects(in_root, out_root, prev, include_hidden, enc_ext);
        if let Ok(ps) = encrypt_plan(in_root, out_root, entries, include_hidden, enc_ext) {
            let ps0 = encrypt_plan(in_root, out_root, prev, include_hidden, enc_ext)->Ok_0;
            assert forall|i: int| #![trigger ps[i]] 0 <= i < ps.len() implies exists|j: int|
                0 <= j < entries.len() && (#[trigger] entries[j]).path@ == ps[i].0 && encrypt_selected(
                    entries[j],
                    include_hidden,
                ) by {
                if i < ps0.len() {
                    let j = choose|j: int|
                        0 <= j < prev.len() && (#[trigger] prev[j]).path@ == ps0[i].0 && encrypt_selected(
                            prev[j],
                            include_hidden,
                        );
                    assert(entries[j] == prev[j]);
                } else {
                    assert(entries[entries.len() - 1] == entries.last());
                }
            }
        }
    }
}

/// Every file in a decryption plan is a walked entry that is selected: not
/// a directory, with the encryption extension, and not hidden unless hidden
/// files are included.
#[verifier::spinoff_prover]
pub proof fn lemma_decrypt_plan_selects(
    in_root: Seq<u8>,
    out_root: Seq<u8>,
    entries: Seq<WalkEntry>,
    include_hidden: bool,
    enc_ext: Seq<u8>,
)
    ensures
        decrypt_plan(in_root, out_root, entries, include_hidden, enc_ext) matches Ok(ps) ==> forall|i: int|
            #![trigger ps[i]]
            0 <= i < ps.len() ==> exists|j: int|
                0 <= j < entries.len() && (#[trigger] entries[j]).path@ == ps[i].0 && decrypt_selected(
                    entries[j],
                    include_hidden,
                    enc_ext,
                ),
    decreases entries.len(),
{
    if entries.len() > 0 {
        let prev = entries.drop_last();
        lemma_decrypt_plan_selects(in_root, out_root, prev, include_hidden, enc_ext);
        if let Ok(ps) = decrypt_plan(in_root, out_root, entries, include_hidden, enc_ext) {
            let ps0 = decrypt_plan(in_root, out_root, prev, include_hidden, enc_ext)->Ok_0;
            assert forall|i: int| #![trigger ps[i]] 0 <= i < ps.len() implies exists|j: int|
                0 <= j < entries.len() && (#[trigger] entries[j]).path@ == ps[i].0 && decrypt_selected(
                    entries[j],
                    include_hidden,
                    enc_ext,
                ) by {
                if i < ps0.len() {
                    let j = choose|j: int|
                        0 <= j < prev.len() && (#[trigger] prev[j]).path@ == ps0[i].0 && decrypt_selected(
                            prev[j],
                            include_hidden,
                            enc_ext,
                        );
                    assert(entries[j] == prev[j]);
                } else {
                    let e = entries.last();
                    assert(decrypt_selected(e, include_hidden, enc_ext));
                    assert(ps[i].0 == e.path@);
                    assert(entries[entries.len() - 1] == e);
                }
            }
        }
    }
}


/// Which walked entries the runs process, with the extension `.lock`: an
/// encryption run takes every file that is an image and, unless hidden
/// files are included, not hidden; a decryption run takes every such file
/// whose extension is `lock` (6C 6F 63 6B) in any ASCII case.
pub proof fn lemma_selected_entries(e: WalkEntry, include_hidden: bool)
    ensures
        encrypt_selected(e, include_hidden) == (!e.is_dir && (include_hidden || !hidden(e.path@)) && image(
            e.path@,
        )),
        decrypt_selected(e, include_hidden, lock_ext()) == (!e.is_dir && (include_hidden || !hidden(
            e.path@,
        )) && (extension(e.path@) matches Some(x) && eq_ignore_ascii_case(
            x,
            seq![0x6Cu8, 0x6Fu8, 0x63u8, 0x6Bu8],
        ))),
{
    assert(lock_ext().drop_first() =~= seq![0x6Cu8, 0x6Fu8, 0x63u8, 0x6Bu8]);
    assert(trim_leading_dots(seq![0x6Cu8, 0x6Fu8, 0x63u8, 0x6Bu8]) == seq![0x6Cu8, 0x6Fu8, 0x63u8, 0x6Bu8]);
    assert(trim_leading_dots(lock_ext()) == seq![0x6Cu8, 0x6Fu8, 0x63u8, 0x6Bu8]);
}

} // verus!
