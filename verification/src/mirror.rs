//! Decrypting what an encryption run wrote: the decryption plan over the
//! outputs of an encryption plan sends every file back to the path it was
//! encrypted from, mirrored under the decryption's output root.
use vstd::prelude::*;
use crate::paths::{
    extension, file_name, file_stem, is_dot_dot, name_span, parent_before, push, rfind,
    sep, set_file_name, skipped_component, trim_right, before_body,
};
use crate::utils::{eq_ignore_ascii_case, hidden};
use crate::walk::{
    decrypt_dst, decrypt_plan, decrypt_selected, encrypt_dst, encrypt_plan, leading_seps,
    lemma_file_name_of_push, lemma_lock_name_round_trip, lemma_rfind_at, lock_ext, relative_to,
    trim_leading_dots, visible, WalkEntry,
};

verus! {

/// A component of a walked path: non-empty, without separator, and neither
/// `.` nor `..`.
pub open spec fn plain_component(c: Seq<u8>) -> bool {
    &&& c.len() > 0
    &&& forall|i: int| 0 <= i < c.len() ==> c[i] != sep()
    &&& !skipped_component(c)
    &&& !is_dot_dot(c)
}

/// Every component is plain.
pub open spec fn all_plain(cs: Seq<Seq<u8>>) -> bool {
    forall|i: int| 0 <= i < cs.len() ==> plain_component(#[trigger] cs[i])
}

/// A relative path of at least one plain component.
pub open spec fn plain_path(cs: Seq<Seq<u8>>) -> bool {
    cs.len() > 0 && all_plain(cs)
}

/// The components joined by `/`.
pub open spec fn join(cs: Seq<Seq<u8>>) -> Seq<u8>
    decreases cs.len(),
{
    if cs.len() == 0 {
        Seq::empty()
    } else if cs.len() == 1 {
        cs[0]
    } else {
        join(cs.drop_last()) + seq![sep()] + cs.last()
    }
}

/// The absolute path of the components: `/` followed by them (`/` alone
/// for none), as canonical directories are written.
pub open spec fn absolute(cs: Seq<Seq<u8>>) -> Seq<u8> {
    seq![sep()] + join(cs)
}

/// The relative path of an encrypted file: the source's, with `.lock`
/// appended to the final component.
pub open spec fn locked(cs: Seq<Seq<u8>>) -> Seq<Seq<u8>> {
    cs.drop_last().push(cs.last() + lock_ext())
}

/// The shape of a join: non-empty, neither starting nor ending with `/`,
/// and ending with the last component after a `/` (or alone).
proof fn lemma_join(cs: Seq<Seq<u8>>)
    requires
        plain_path(cs),
    ensures
        join(cs).len() >= cs.last().len() > 0,
        join(cs)[0] != sep(),
        join(cs).last() != sep(),
        join(cs).subrange(join(cs).len() - cs.last().len(), join(cs).len() as int) == cs.last(),
        cs.len() == 1 ==> join(cs) == cs[0],
        cs.len() > 1 ==> join(cs).len() > cs.last().len() + 1 && join(cs)[join(cs).len()
            - cs.last().len() - 1] == sep() && join(cs).subrange(
            0,
            join(cs).len() - cs.last().len() - 1,
        ) == join(cs.drop_last()),
    decreases cs.len(),
{
    let last = cs.last();
    assert(plain_component(cs[cs.len() - 1]));
    if cs.len() == 1 {
        assert(join(cs).subrange(0, join(cs).len() as int) =~= join(cs));
    } else {
        let dl = cs.drop_last();
        assert forall|i: int| 0 <= i < dl.len() implies plain_component(#[trigger] dl[i]) by {
            assert(dl[i] == cs[i]);
        }
        lemma_join(dl);
        let j = join(cs);
        let a = join(dl);
        assert(j == a + seq![sep()] + last);
        assert(j[0] == a[0]);
        assert(j.last() == last.last());
        assert(j.subrange(j.len() - last.len(), j.len() as int) =~= last);
        assert(j.subrange(0, j.len() - last.len() - 1) =~= a);
    }
}

/// Joining two non-empty lists of components is joining each with a `/`
/// between.
proof fn lemma_join_append(a: Seq<Seq<u8>>, b: Seq<Seq<u8>>)
    requires
        a.len() > 0,
        b.len() > 0,
    ensures
        join(a + b) == join(a) + seq![sep()] + join(b),
    decreases b.len(),
{
    if b.len() == 1 {
        assert((a + b).drop_last() =~= a);
        assert((a + b).last() == b[0]);
    } else {
        assert((a + b).drop_last() =~= a + b.drop_last());
        assert((a + b).last() == b.last());
        lemma_join_append(a, b.drop_last());
        assert(join(a + b) =~= join(a) + seq![sep()] + join(b));
    }
}

/// Pushing a plain relative path onto an absolute one appends its
/// components.
proof fn lemma_push_absolute(rcs: Seq<Seq<u8>>, cs: Seq<Seq<u8>>)
    requires
        all_plain(rcs),
        plain_path(cs),
    ensures
        push(absolute(rcs), join(cs)) == absolute(rcs + cs),
{
    lemma_join(cs);
    if rcs.len() == 0 {
        assert(rcs + cs =~= cs);
        assert(absolute(rcs) =~= seq![sep()]);
        assert(push(absolute(rcs), join(cs)) =~= absolute(rcs + cs));
    } else {
        lemma_join(rcs);
        lemma_join_append(rcs, cs);
        assert(absolute(rcs).last() == join(rcs).last());
        assert(push(absolute(rcs), join(cs)) =~= absolute(rcs + cs));
    }
}

/// Where the final component of an absolute path starts: after its last
/// `/`, which follows the parent's path.
proof fn lemma_absolute_last(cs: Seq<Seq<u8>>)
    requires
        plain_path(cs),
    ensures
        ({
            let p = absolute(cs);
            let k = p.len() - cs.last().len() - 1;
            &&& 0 <= k
            &&& p[0] == sep()
            &&& p[k] == sep()
            &&& rfind(p, sep()) == k
            &&& p.subrange(k + 1, p.len() as int) == cs.last()
            &&& cs.len() == 1 ==> k == 0
            &&& cs.len() > 1 ==> k >= 2 && p.subrange(0, k) == absolute(cs.drop_last())
            &&& p.last() != sep()
        }),
{
    lemma_join(cs);
    let p = absolute(cs);
    let j = join(cs);
    let last = cs.last();
    assert(plain_component(cs[cs.len() - 1]));
    let k = p.len() - last.len() - 1;
    assert(p.subrange(k + 1, p.len() as int) =~= j.subrange(j.len() - last.len(), j.len() as int));
    assert forall|i: int| k < i < p.len() implies p[i] != sep() by {
        assert(p[i] == last[i - k - 1]);
    }
    if cs.len() == 1 {
        assert(p[k] == sep());
    } else {
        assert(p[k] == j[j.len() - last.len() - 1]);
        assert(p.subrange(0, k) =~= seq![sep()] + j.subrange(0, j.len() - last.len() - 1));
        let dl = cs.drop_last();
        assert(dl[0] == cs[0]);
        assert(plain_component(cs[0]));
        assert(join(dl).len() > 0) by {
            assert forall|i: int| 0 <= i < dl.len() implies plain_component(#[trigger] dl[i]) by {
                assert(dl[i] == cs[i]);
            }
            lemma_join(dl);
        }
    }
    lemma_rfind_at(p, sep(), k);
}

/// The final component of an absolute path is its file name.
proof fn lemma_file_name_absolute(cs: Seq<Seq<u8>>)
    requires
        plain_path(cs),
    ensures
        file_name(absolute(cs)) == Some(cs.last()),
{
    lemma_absolute_last(cs);
    assert(plain_component(cs[cs.len() - 1]));
}

/// Replacing the final component of an absolute path by a plain name.
proof fn lemma_set_file_name_absolute(cs: Seq<Seq<u8>>, name: Seq<u8>)
    requires
        plain_path(cs),
        plain_component(name),
    ensures
        set_file_name(absolute(cs), name) == absolute(cs.drop_last().push(name)),
{
    let p = absolute(cs);
    lemma_absolute_last(cs);
    assert(plain_component(cs[cs.len() - 1]));
    let k = p.len() - cs.last().len() - 1;
    assert(name_span(p) == Some((k + 1, p.len() as int)));
    assert(before_body(p) == 1);
    let dl = cs.drop_last();
    if cs.len() == 1 {
        assert(p.subrange(0, 1) =~= seq![sep()]);
        assert(parent_before(p, k + 1) =~= seq![sep()]);
        assert(dl.push(name) =~= seq![name]);
        assert(push(seq![sep()], name) =~= absolute(seq![name]));
    } else {
        assert forall|i: int| 0 <= i < dl.len() implies plain_component(#[trigger] dl[i]) by {
            assert(dl[i] == cs[i]);
        }
        let q = absolute(dl);
        lemma_absolute_last(dl);
        assert(plain_component(dl[dl.len() - 1]));
        assert(trim_right(q, 1) == q);
        assert(parent_before(p, k + 1) == q);
        assert(dl.push(name).drop_last() =~= dl);
        assert(dl.push(name).last() == name);
        assert(push(q, name) =~= absolute(dl.push(name)));
    }
}

/// The separators at the start of `s`.
proof fn lemma_leading_seps(s: Seq<u8>)
    ensures
        0 <= leading_seps(s) <= s.len(),
        forall|i: int| 0 <= i < leading_seps(s) ==> s[i] == sep(),
        leading_seps(s) < s.len() ==> s[leading_seps(s)] != sep(),
    decreases s.len(),
{
    if s.len() > 0 && s[0] == sep() {
        lemma_leading_seps(s.drop_first());
        assert forall|i: int| 0 <= i < leading_seps(s) implies s[i] == sep() by {
            if i > 0 {
                assert(s[i] == s.drop_first()[i - 1]);
            }
        }
        if leading_seps(s) < s.len() {
            assert(s[leading_seps(s)] == s.drop_first()[leading_seps(s) - 1]);
        }
    }
}

/// A path relative to an absolute root is found again after pushing it.
proof fn lemma_relative_push(rcs: Seq<Seq<u8>>, cs: Seq<Seq<u8>>)
    requires
        all_plain(rcs),
        plain_path(cs),
    ensures
        relative_to(absolute(rcs), push(absolute(rcs), join(cs))) == Some(join(cs)),
{
    let r = absolute(rcs);
    let j = join(cs);
    lemma_join(cs);
    let p = push(r, j);
    if rcs.len() == 0 {
        assert(p =~= r + j);
    } else {
        lemma_join(rcs);
        assert(r.last() == join(rcs).last());
        assert(p =~= r + seq![sep()] + j);
    }
    assert(p.subrange(0, r.len() as int) =~= r);
    let rest = p.subrange(r.len() as int, p.len() as int);
    lemma_leading_seps(rest);
    if rcs.len() == 0 {
        assert(rest =~= j);
        assert(leading_seps(rest) == 0);
        assert(rest.subrange(0, rest.len() as int) =~= j);
    } else {
        assert(rest =~= seq![sep()] + j);
        assert(rest.drop_first() =~= j);
        assert(leading_seps(rest.drop_first()) == 0);
        assert(rest.subrange(1, rest.len() as int) =~= j);
    }
}

/// A walked path whose path relative to the root is plain has the final
/// component of that relative path as its file name.
proof fn lemma_file_name_relative(root: Seq<u8>, src: Seq<u8>, cs: Seq<Seq<u8>>)
    requires
        plain_path(cs),
        relative_to(root, src) == Some(join(cs)),
    ensures
        file_name(src) == Some(cs.last()),
{
    let last = cs.last();
    assert(plain_component(cs[cs.len() - 1]));
    let j = join(cs);
    lemma_join(cs);
    let rest = src.subrange(root.len() as int, src.len() as int);
    let ls = leading_seps(rest);
    lemma_leading_seps(rest);
    assert(rest.subrange(ls, rest.len() as int) == j);
    let m = src.len() - last.len();
    let q = src.subrange(0, m);
    // what precedes the final component is empty or ends with a separator
    assert(q.len() == 0 || q.last() == sep()) by {
        if cs.len() > 1 {
            assert(q.last() == src[m - 1]);
            assert(src[m - 1] == rest[ls + j.len() - last.len() - 1]);
            assert(rest[ls + j.len() - last.len() - 1] == j[j.len() - last.len() - 1]);
        } else if ls > 0 {
            assert(q.last() == rest[ls - 1]);
        } else {
            assert(rest[0] == j[0]);
            assert(root.len() > 0 && root.last() == sep());
            assert(q =~= root);
        }
    }
    assert(src.subrange(m, src.len() as int) =~= j.subrange(j.len() - last.len(), j.len() as int));
    assert(push(q, last) =~= src);
    lemma_file_name_of_push(q, last);
}

/// Decrypting what encrypting wrote: a file at the plain relative path
/// `cs` under the input root is encrypted to `cs` with `.lock` appended
/// under the encryption's output root (`absolute(ecs)`). That file lies at
/// that relative path from the root, is selected for decryption whenever
/// its source was selected for encryption (extension `lock`, hidden
/// exactly when the source is), and is decrypted to `cs` under the
/// decryption's output root (`absolute(dcs)`).
pub proof fn lemma_decrypt_undoes_encrypt(
    in_root: Seq<u8>,
    src: Seq<u8>,
    cs: Seq<Seq<u8>>,
    ecs: Seq<Seq<u8>>,
    dcs: Seq<Seq<u8>>,
)
    requires
        plain_path(cs),
        all_plain(ecs),
        all_plain(dcs),
        relative_to(in_root, src) == Some(join(cs)),
    ensures
        encrypt_dst(absolute(ecs), join(cs), lock_ext()) == absolute(ecs + locked(cs)),
        relative_to(absolute(ecs), absolute(ecs + locked(cs))) == Some(join(locked(cs))),
        decrypt_dst(absolute(dcs), join(locked(cs)), absolute(ecs + locked(cs))) == push(
            absolute(dcs),
            join(cs),
        ),
        extension(absolute(ecs + locked(cs))) matches Some(x) && eq_ignore_ascii_case(
            x,
            trim_leading_dots(lock_ext()),
        ),
        hidden(absolute(ecs + locked(cs))) == hidden(src),
{
    let last = cs.last();
    assert(plain_component(cs[cs.len() - 1]));
    let n = last + lock_ext();
    assert forall|i: int| 0 <= i < n.len() implies n[i] != sep() by {
        if i < last.len() {
            assert(n[i] == last[i]);
        }
    }
    assert(plain_component(n));
    let lk = locked(cs);
    assert(lk.last() == n);
    assert forall|i: int| 0 <= i < lk.len() implies plain_component(#[trigger] lk[i]) by {
        if i < lk.len() - 1 {
            assert(lk[i] == cs[i]);
        }
    }
    let ec = ecs + cs;
    assert forall|i: int| 0 <= i < ec.len() implies plain_component(#[trigger] ec[i]) by {
        if i < ecs.len() {
            assert(ec[i] == ecs[i]);
        } else {
            assert(ec[i] == cs[i - ecs.len()]);
        }
    }
    assert(ec.last() == last);
    let el = ecs + lk;
    assert forall|i: int| 0 <= i < el.len() implies plain_component(#[trigger] el[i]) by {
        if i < ecs.len() {
            assert(el[i] == ecs[i]);
        } else {
            assert(el[i] == lk[i - ecs.len()]);
        }
    }
    assert(el.last() == n);
    let dl = dcs + lk;
    assert forall|i: int| 0 <= i < dl.len() implies plain_component(#[trigger] dl[i]) by {
        if i < dcs.len() {
            assert(dl[i] == dcs[i]);
        } else {
            assert(dl[i] == lk[i - dcs.len()]);
        }
    }
    let dc = dcs + cs;
    // encryption: the name gets `.lock`
    lemma_push_absolute(ecs, cs);
    lemma_file_name_absolute(ec);
    lemma_set_file_name_absolute(ec, n);
    assert(ec.drop_last().push(n) =~= el);
    // the encrypted file, seen from the encryption's output root
    lemma_push_absolute(ecs, lk);
    lemma_relative_push(ecs, lk);
    // its name, extension and stem
    lemma_file_name_absolute(el);
    lemma_lock_name_round_trip(last);
    assert(file_stem(absolute(el)) == Some(last));
    // decryption: the name loses `.lock`
    lemma_push_absolute(dcs, lk);
    lemma_set_file_name_absolute(dl, last);
    assert(dl.drop_last().push(last) =~= dc);
    lemma_push_absolute(dcs, cs);
    // hidden exactly when the source is
    lemma_file_name_relative(in_root, src, cs);
    assert(n[0] == last[0]);
}

/// Every entry of an encryption plan is a visible file, with a path
/// relative to the input root, sent to its encryption destination.
proof fn lemma_encrypt_plan_entries(
    in_root: Seq<u8>,
    out_root: Seq<u8>,
    entries: Seq<WalkEntry>,
    include_hidden: bool,
    enc_ext: Seq<u8>,
)
    ensures
        encrypt_plan(in_root, out_root, entries, include_hidden, enc_ext) matches Ok(ps) ==> forall|i: int|
            #![trigger ps[i]]
            0 <= i < ps.len() ==> visible(ps[i].0, include_hidden) && (relative_to(in_root, ps[i].0) matches Some(r)
                && ps[i].1 == encrypt_dst(out_root, r, enc_ext)),
    decreases entries.len(),
{
    if entries.len() > 0 {
        let prev = entries.drop_last();
        lemma_encrypt_plan_entries(in_root, out_root, prev, include_hidden, enc_ext);
        if let Ok(ps) = encrypt_plan(in_root, out_root, entries, include_hidden, enc_ext) {
            let ps0 = encrypt_plan(in_root, out_root, prev, include_hidden, enc_ext)->Ok_0;
            assert forall|i: int| #![trigger ps[i]] 0 <= i < ps.len() implies visible(ps[i].0, include_hidden)
                && (relative_to(in_root, ps[i].0) matches Some(r) && ps[i].1 == encrypt_dst(out_root, r, enc_ext)) by {
                if i < ps0.len() {
                    assert(ps[i] == ps0[i]);
                }
            }
        }
    }
}

/// Every planned pair is some `(srcs[i], targets[i])`.
pub open spec fn pairs_from(qs: Seq<(Seq<u8>, Seq<u8>)>, srcs: Seq<Seq<u8>>, targets: Seq<Seq<u8>>) -> bool {
    forall|k: int|
        0 <= k < qs.len() ==> exists|i: int| 0 <= i < srcs.len() && #[trigger] qs[k] == (srcs[i], targets[i])
}

/// Every file among the walked entries is read by some planned pair.
pub open spec fn covers_files(qs: Seq<(Seq<u8>, Seq<u8>)>, entries: Seq<WalkEntry>) -> bool {
    forall|j: int|
        0 <= j < entries.len() && !(#[trigger] entries[j]).is_dir ==> exists|k: int|
            0 <= k < qs.len() && qs[k].0 == entries[j].path@
}

/// The decryption plan of walked entries whose files are all among `srcs`,
/// each of which is selected and decrypted to the matching `targets` entry.
proof fn lemma_decrypt_plan_targets(
    e_root: Seq<u8>,
    d_root: Seq<u8>,
    entries: Seq<WalkEntry>,
    include_hidden: bool,
    enc_ext: Seq<u8>,
    srcs: Seq<Seq<u8>>,
    targets: Seq<Seq<u8>>,
)
    requires
        srcs.len() == targets.len(),
        forall|i: int|
            #![trigger srcs[i]]
            0 <= i < srcs.len() ==> {
                &&& visible(srcs[i], include_hidden)
                &&& extension(srcs[i]) matches Some(x) && eq_ignore_ascii_case(x, trim_leading_dots(enc_ext))
                &&& relative_to(e_root, srcs[i]) matches Some(r) && decrypt_dst(d_root, r, srcs[i]) == targets[i]
            },
        forall|j: int|
            0 <= j < entries.len() && !(#[trigger] entries[j]).is_dir ==> exists|i: int|
                0 <= i < srcs.len() && entries[j].path@ == srcs[i],
    ensures
        decrypt_plan(e_root, d_root, entries, include_hidden, enc_ext) is Ok,
        pairs_from(decrypt_plan(e_root, d_root, entries, include_hidden, enc_ext)->Ok_0, srcs, targets),
        covers_files(decrypt_plan(e_root, d_root, entries, include_hidden, enc_ext)->Ok_0, entries),
    decreases entries.len(),
{
    if entries.len() > 0 {
        let prev = entries.drop_last();
        assert forall|j: int| 0 <= j < prev.len() && !(#[trigger] prev[j]).is_dir implies exists|i: int|
            0 <= i < srcs.len() && prev[j].path@ == srcs[i] by {
            assert(prev[j] == entries[j]);
        }
        lemma_decrypt_plan_targets(e_root, d_root, prev, include_hidden, enc_ext, srcs, targets);
        let qs0 = decrypt_plan(e_root, d_root, prev, include_hidden, enc_ext)->Ok_0;
        let e = entries.last();
        assert(e == entries[entries.len() - 1]);
        if !e.is_dir {
            let i = choose|i: int| 0 <= i < srcs.len() && e.path@ == srcs[i];
            assert(decrypt_selected(e, include_hidden, enc_ext));
            let qs = qs0.push((srcs[i], targets[i]));
            assert(decrypt_plan(e_root, d_root, entries, include_hidden, enc_ext) == Ok::<
                Seq<(Seq<u8>, Seq<u8>)>,
                Seq<u8>,
            >(qs));
            assert(pairs_from(qs, srcs, targets)) by {
                assert forall|k: int| 0 <= k < qs.len() implies exists|i2: int|
                    0 <= i2 < srcs.len() && #[trigger] qs[k] == (srcs[i2], targets[i2]) by {
                    if k < qs0.len() {
                        assert(qs[k] == qs0[k]);
                    } else {
                        assert(qs[k] == (srcs[i], targets[i]));
                    }
                }
            }
            assert(covers_files(qs, entries)) by {
                assert forall|j: int| 0 <= j < entries.len() && !(#[trigger] entries[j]).is_dir implies exists|k: int|
                    0 <= k < qs.len() && qs[k].0 == entries[j].path@ by {
                    if j < prev.len() {
                        assert(entries[j] == prev[j]);
                        let k = choose|k: int| 0 <= k < qs0.len() && qs0[k].0 == prev[j].path@;
                        assert(qs[k] == qs0[k]);
                    } else {
                        assert(qs[qs0.len() as int].0 == entries[j].path@);
                    }
                }
            }
        } else {
            assert(!decrypt_selected(e, include_hidden, enc_ext));
            assert(decrypt_plan(e_root, d_root, entries, include_hidden, enc_ext) == Ok::<
                Seq<(Seq<u8>, Seq<u8>)>,
                Seq<u8>,
            >(qs0));
            assert(covers_files(qs0, entries)) by {
                assert forall|j: int| 0 <= j < entries.len() && !(#[trigger] entries[j]).is_dir implies exists|k: int|
                    0 <= k < qs0.len() && qs0[k].0 == entries[j].path@ by {
                    assert(entries[j] == prev[j]);
                }
            }
        }
    }
}

/// Decrypting the outputs of an encryption run gives back the tree it
/// encrypted. Let `ps` be the encryption plan of the walked `entries1` of
/// `in_root` into the output root `absolute(ecs)`, with the extension
/// `.lock`, and let each planned source lie at the plain relative path
/// `rels[i]`. Walk the output root again: every file met (`entries2`, in any
/// order, directories among them) is one that the plan wrote. Then the
/// decryption plan of those entries into `absolute(dcs)` succeeds; each of
/// its entries reads an encrypted file `ps[i].1` and writes it to `rels[i]`
/// under `absolute(dcs)`, every file met is in it, and each encrypted file
/// met is written back to the relative path of its own source.
pub proof fn lemma_decrypt_plan_of_encrypted(
    in_root: Seq<u8>,
    ecs: Seq<Seq<u8>>,
    dcs: Seq<Seq<u8>>,
    entries1: Seq<WalkEntry>,
    include_hidden: bool,
    ps: Seq<(Seq<u8>, Seq<u8>)>,
    rels: Seq<Seq<Seq<u8>>>,
    entries2: Seq<WalkEntry>,
)
    requires
        all_plain(ecs),
        all_plain(dcs),
        encrypt_plan(in_root, absolute(ecs), entries1, include_hidden, lock_ext()) == Ok::<
            Seq<(Seq<u8>, Seq<u8>)>,
            Seq<u8>,
        >(ps),
        rels.len() == ps.len(),
        forall|i: int|
            0 <= i < ps.len() ==> plain_path(#[trigger] rels[i]) && relative_to(in_root, ps[i].0)
                == Some(join(rels[i])),
        forall|j: int|
            0 <= j < entries2.len() && !(#[trigger] entries2[j]).is_dir ==> exists|i: int|
                0 <= i < ps.len() && entries2[j].path@ == ps[i].1,
    ensures
        decrypt_plan(absolute(ecs), absolute(dcs), entries2, include_hidden, lock_ext()) matches Ok(qs)
            && pairs_from(qs, ps.map_values(|p: (Seq<u8>, Seq<u8>)| p.1), rels.map_values(
            |r: Seq<Seq<u8>>| push(absolute(dcs), join(r)),
        )) && covers_files(qs, entries2) && (forall|i: int|
            #![trigger ps[i]]
            0 <= i < ps.len() && (exists|j: int|
                0 <= j < entries2.len() && !(#[trigger] entries2[j]).is_dir && entries2[j].path@ == ps[i].1)
                ==> exists|k: int|
                0 <= k < qs.len() && #[trigger] qs[k] == (ps[i].1, push(absolute(dcs), join(rels[i])))),
{
    let e_root = absolute(ecs);
    let d_root = absolute(dcs);
    lemma_encrypt_plan_entries(in_root, e_root, entries1, include_hidden, lock_ext());
    let srcs = Seq::new(ps.len(), |i: int| ps[i].1);
    let targets = Seq::new(ps.len(), |i: int| push(d_root, join(rels[i])));
    assert forall|i: int| #![trigger srcs[i]] 0 <= i < srcs.len() implies {
        &&& visible(srcs[i], include_hidden)
        &&& extension(srcs[i]) matches Some(x) && eq_ignore_ascii_case(x, trim_leading_dots(lock_ext()))
        &&& relative_to(e_root, srcs[i]) matches Some(r) && decrypt_dst(d_root, r, srcs[i]) == targets[i]
    } by {
        assert(plain_path(rels[i]));
        lemma_decrypt_undoes_encrypt(in_root, ps[i].0, rels[i], ecs, dcs);
        assert(visible(ps[i].0, include_hidden));
    }
    assert forall|j: int| 0 <= j < entries2.len() && !(#[trigger] entries2[j]).is_dir implies exists|i: int|
        0 <= i < srcs.len() && entries2[j].path@ == srcs[i] by {
        let i = choose|i: int| 0 <= i < ps.len() && entries2[j].path@ == ps[i].1;
        assert(srcs[i] == ps[i].1);
    }
    lemma_decrypt_plan_targets(e_root, d_root, entries2, include_hidden, lock_ext(), srcs, targets);
    assert(srcs =~= ps.map_values(|p: (Seq<u8>, Seq<u8>)| p.1));
    assert(targets =~= rels.map_values(|r: Seq<Seq<u8>>| push(absolute(dcs), join(r))));
    let qs = decrypt_plan(e_root, d_root, entries2, include_hidden, lock_ext())->Ok_0;
    // each encrypted file met is decrypted to its own source's path
    assert forall|i: int|
        #![trigger ps[i]]
        0 <= i < ps.len() && (exists|j: int|
            0 <= j < entries2.len() && !(#[trigger] entries2[j]).is_dir && entries2[j].path@ == ps[i].1)
            implies exists|k: int| 0 <= k < qs.len() && #[trigger] qs[k] == (ps[i].1, push(d_root, join(rels[i]))) by {
        let j = choose|j: int|
            0 <= j < entries2.len() && !(#[trigger] entries2[j]).is_dir && entries2[j].path@ == ps[i].1;
        let k = choose|k: int| 0 <= k < qs.len() && qs[k].0 == entries2[j].path@;
        let i2 = choose|i2: int| 0 <= i2 < srcs.len() && #[trigger] qs[k] == (srcs[i2], targets[i2]);
        assert(srcs[i] == srcs[i2]);
        assert(targets[i] == targets[i2]);
    }
}


/// What `relative_to` gives: the path is the root, then separators, then
/// the relative part, which does not start with a separator; the root and
/// the relative part meet at a component boundary. Conversely, the root, a
/// `/` and a part not starting with `/` give that part back, and a path
/// that does not start with the root has no relative part.
pub proof fn lemma_relative_to_shape(root: Seq<u8>, path: Seq<u8>, part: Seq<u8>)
    ensures
        relative_to(root, path) matches Some(r) ==> {
            &&& path.len() >= root.len() + r.len()
            &&& path.subrange(0, root.len() as int) == root
            &&& path.subrange(path.len() - r.len(), path.len() as int) == r
            &&& forall|i: int| root.len() <= i < path.len() - r.len() ==> path[i] == 0x2Fu8
            &&& r.len() > 0 ==> r[0] != 0x2Fu8
            &&& (r.len() > 0 && path.len() - r.len() == root.len()) ==> root.len() > 0 && root.last()
                == 0x2Fu8
        },
        (part.len() == 0 || part[0] != 0x2Fu8) ==> relative_to(root, root + seq![0x2Fu8] + part) == Some(
            part,
        ),
        !(path.len() >= root.len() && path.subrange(0, root.len() as int) == root) ==> relative_to(
            root,
            path,
        ) is None,
{
    if let Some(r) = relative_to(root, path) {
        let rest = path.subrange(root.len() as int, path.len() as int);
        lemma_leading_seps(rest);
        let ls = leading_seps(rest);
        assert(r == rest.subrange(ls, rest.len() as int));
        assert(path.subrange(path.len() - r.len(), path.len() as int) =~= r);
        assert forall|i: int| root.len() <= i < path.len() - r.len() implies path[i] == 0x2Fu8 by {
            assert(path[i] == rest[i - root.len()]);
        }
        if r.len() > 0 {
            assert(r[0] == rest[ls]);
        }
    }
    if part.len() == 0 || part[0] != 0x2Fu8 {
        let q = root + seq![0x2Fu8] + part;
        assert(q.subrange(0, root.len() as int) =~= root);
        let rest = q.subrange(root.len() as int, q.len() as int);
        assert(rest =~= seq![0x2Fu8] + part);
        assert(rest.drop_first() =~= part);
        lemma_leading_seps(part);
        if part.len() > 0 {
            assert(leading_seps(part) == 0);
        }
        assert(rest.subrange(1, rest.len() as int) =~= part);
    }
}

} // verus!
