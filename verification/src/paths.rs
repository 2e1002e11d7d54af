//! Paths as byte strings (the bytes of a Unix `OsStr`), with the parts of
//! `std::path` semantics that the tool relies on: the final component, its
//! extension and stem, joining, and replacing the final component.
use vstd::prelude::*;
use crate::bytes::append_bytes;

verus! {

/// The path separator `/`.
pub open spec fn sep() -> u8 {
    47u8
}

/// Index of the last occurrence of `b` in `p`, or -1 when there is none.
pub open spec fn rfind(p: Seq<u8>, b: u8) -> int
    decreases p.len(),
{
    if p.len() == 0 {
        -1
    } else if p.last() == b {
        p.len() - 1
    } else {
        rfind(p.drop_last(), b)
    }
}

pub proof fn lemma_rfind(p: Seq<u8>, b: u8)
    ensures
        -1 <= rfind(p, b) < p.len(),
        rfind(p, b) >= 0 ==> p[rfind(p, b)] == b,
        forall|i: int| rfind(p, b) < i < p.len() ==> p[i] != b,
    decreases p.len(),
{
    if p.len() > 0 && p.last() != b {
        lemma_rfind(p.drop_last(), b);
        assert forall|i: int| rfind(p, b) < i < p.len() implies p[i] != b by {
            if i < p.len() - 1 {
                assert(p.drop_last()[i] == p[i]);
            }
        }
    }
}

/// A component that `std::path` skips: empty (between repeated separators
/// or after a trailing one) or `.`.
pub open spec fn skipped_component(s: Seq<u8>) -> bool {
    s.len() == 0 || (s.len() == 1 && s[0] == 46u8)
}

/// The component `..`.
pub open spec fn is_dot_dot(s: Seq<u8>) -> bool {
    s.len() == 2 && s[0] == 46u8 && s[1] == 46u8
}

/// Start and end of the last component of `p` that is neither empty nor
/// `.`, when there is one.
pub open spec fn name_span(p: Seq<u8>) -> Option<(int, int)>
    decreases p.len(),
{
    if p.len() == 0 {
        None
    } else {
        let k = rfind(p, sep());
        if skipped_component(p.subrange(k + 1, p.len() as int)) {
            if k < 0 {
                None
            } else {
                proof {
                    lemma_rfind(p, sep());
                }
                name_span(p.subrange(0, k))
            }
        } else {
            Some((k + 1, p.len() as int))
        }
    }
}

/// `Path::file_name`: the final component, unless the path ends in `..` or
/// has no normal component (`/`, `.`, the empty path).
pub open spec fn file_name(p: Seq<u8>) -> Option<Seq<u8>> {
    match name_span(p) {
        Some((s, e)) => if is_dot_dot(p.subrange(s, e)) {
            None
        } else {
            Some(p.subrange(s, e))
        },
        None => None,
    }
}

/// `Path::extension`: what follows the last `.` of the file name, when that
/// `.` is not its first byte.
pub open spec fn extension(p: Seq<u8>) -> Option<Seq<u8>> {
    match file_name(p) {
        Some(n) => {
            let d = rfind(n, 46u8);
            if d <= 0 {
                None
            } else {
                Some(n.subrange(d + 1, n.len() as int))
            }
        },
        None => None,
    }
}

/// `Path::file_stem`: the file name without its extension.
pub open spec fn file_stem(p: Seq<u8>) -> Option<Seq<u8>> {
    match file_name(p) {
        Some(n) => {
            let d = rfind(n, 46u8);
            if d <= 0 {
                Some(n)
            } else {
                Some(n.subrange(0, d))
            }
        },
        None => None,
    }
}

/// `PathBuf::push` on Unix: an absolute `q` replaces `p`; otherwise a
/// separator is added when `p` is non-empty and does not end in one.
pub open spec fn push(p: Seq<u8>, q: Seq<u8>) -> Seq<u8> {
    if q.len() > 0 && q[0] == sep() {
        q
    } else if p.len() > 0 && p.last() != sep() {
        p + seq![sep()] + q
    } else {
        p + q
    }
}

/// Length of what precedes the body of the path: the root `/`, or a leading
/// `.` component.
pub open spec fn before_body(p: Seq<u8>) -> int {
    if p.len() > 0 && p[0] == sep() {
        1
    } else if p.len() > 0 && p[0] == 46u8 && (p.len() == 1 || p[1] == sep()) {
        1
    } else {
        0
    }
}

/// Removes trailing empty and `.` components from `q`, never cutting into
/// its first `bb` bytes.
pub open spec fn trim_right(q: Seq<u8>, bb: int) -> Seq<u8>
    decreases q.len(),
{
    if q.len() <= bb || bb < 0 {
        q
    } else {
        let j = rfind(q, sep());
        if j >= bb {
            if skipped_component(q.subrange(j + 1, q.len() as int)) {
                proof {
                    lemma_rfind(q, sep());
                }
                trim_right(q.subrange(0, j), bb)
            } else {
                q
            }
        } else {
            if skipped_component(q.subrange(bb, q.len() as int)) {
                trim_right(q.subrange(0, bb), bb)
            } else {
                q
            }
        }
    }
}

/// `Path::parent` of a path whose final component spans `s..`: what comes
/// before that component, less the separator that precedes it and any
/// trailing empty or `.` components.
pub open spec fn parent_before(p: Seq<u8>, s: int) -> Seq<u8> {
    let bb = before_body(p);
    trim_right(p.subrange(0, if s > bb { s - 1 } else { s }), bb)
}

/// `PathBuf::set_file_name`: when the path has a file name, it is first
/// truncated to its parent; then `name` is pushed.
pub open spec fn set_file_name(p: Seq<u8>, name: Seq<u8>) -> Seq<u8> {
    match name_span(p) {
        Some((s, e)) => if is_dot_dot(p.subrange(s, e)) {
            push(p, name)
        } else {
            push(parent_before(p, s), name)
        },
        None => push(p, name),
    }
}

/// Index of the last `b` in `p[..end]`.
pub fn rfind_in(p: &[u8], end: usize, b: u8) -> (r: Option<usize>)
    requires
        end <= p@.len(),
    ensures
        match r {
            Some(k) => k as int == rfind(p@.subrange(0, end as int), b),
            None => rfind(p@.subrange(0, end as int), b) == -1,
        },
{
    let mut i = end;
    while i > 0
        invariant
            i <= end <= p@.len(),
            rfind(p@.subrange(0, end as int), b) == rfind(p@.subrange(0, i as int), b),
        decreases i,
    {
        if p[i - 1] == b {
            return Some(i - 1);
        }
        assert(p@.subrange(0, i as int).drop_last() =~= p@.subrange(0, i - 1));
        i = i - 1;
    }
    None
}

proof fn lemma_prefix_of_prefix(p: Seq<u8>, end: int, k: int)
    requires
        0 <= k <= end <= p.len(),
    ensures
        p.subrange(0, end).subrange(0, k) == p.subrange(0, k),
{
    assert(p.subrange(0, end).subrange(0, k) =~= p.subrange(0, k));
}

/// The span of the last normal-or-`..` component of `p[..end]`.
pub fn name_span_in(p: &[u8], end: usize) -> (r: Option<(usize, usize)>)
    requires
        end <= p@.len(),
    ensures
        match r {
            Some((s, e)) => name_span(p@.subrange(0, end as int)) == Some((s as int, e as int))
                && s < e <= end,
            None => name_span(p@.subrange(0, end as int)) is None,
        },
    decreases end,
{
    let ghost q = p@.subrange(0, end as int);
    if end == 0 {
        return None;
    }
    let k = rfind_in(p, end, 47);
    proof {
        lemma_rfind(q, sep());
    }
    let start: usize = match k {
        Some(k) => k + 1,
        None => 0,
    };
    let seg_len = end - start;
    let skipped = seg_len == 0 || (seg_len == 1 && p[start] == 46);
    assert(q.subrange(start as int, end as int).len() == seg_len);
    assert(skipped == skipped_component(q.subrange(start as int, end as int)));
    if skipped {
        match k {
            None => None,
            Some(k) => {
                proof {
                    lemma_prefix_of_prefix(p@, end as int, k as int);
                }
                name_span_in(p, k)
            },
        }
    } else {
        Some((start, end))
    }
}

/// The span of `Path::file_name` of `p`.
pub fn file_name_span(p: &[u8]) -> (r: Option<(usize, usize)>)
    ensures
        match r {
            Some((s, e)) => file_name(p@) == Some(p@.subrange(s as int, e as int)) && s < e
                <= p@.len() && name_span(p@) == Some((s as int, e as int)),
            None => file_name(p@) is None,
        },
{
    assert(p@.subrange(0, p@.len() as int) =~= p@);
    match name_span_in(p, p.len()) {
        Some((s, e)) => {
            let dd = e - s == 2 && p[s] == 46 && p[s + 1] == 46;
            assert(dd == is_dot_dot(p@.subrange(s as int, e as int)));
            if dd {
                None
            } else {
                Some((s, e))
            }
        },
        None => None,
    }
}

/// Start of the extension (after its `.`) within the file name `p[s..e]`,
/// when there is one.
fn extension_start(p: &[u8], s: usize, e: usize) -> (r: Option<usize>)
    requires
        s < e <= p@.len(),
    ensures
        ({
            let n = p@.subrange(s as int, e as int);
            let d = rfind(n, 46u8);
            match r {
                Some(x) => d > 0 && x as int == s + d + 1,
                None => d <= 0,
            }
        }),
{
    let ghost n = p@.subrange(s as int, e as int);
    assert(n.subrange(0, e - s) =~= n);
    let mut i = e;
    while i > s
        invariant
            s <= i <= e <= p@.len(),
            n == p@.subrange(s as int, e as int),
            rfind(n, 46u8) == rfind(n.subrange(0, i - s), 46u8),
        decreases i,
    {
        assert(n.subrange(0, i - s).last() == p@[i - 1]);
        if p[i - 1] == 46 {
            if i - 1 == s {
                return None;
            }
            return Some(i);
        }
        assert(n.subrange(0, i - s).drop_last() =~= n.subrange(0, i - 1 - s));
        i = i - 1;
    }
    assert(n.subrange(0, 0).len() == 0);
    None
}

/// The span of `Path::extension` of `p`.
pub fn extension_span(p: &[u8]) -> (r: Option<(usize, usize)>)
    ensures
        match r {
            Some((s, e)) => s <= e <= p@.len() && extension(p@) == Some(p@.subrange(s as int, e as int)),
            None => extension(p@) is None,
        },
{
    match file_name_span(p) {
        Some((s, e)) => {
            let x = extension_start(p, s, e);
            match x {
                Some(x) => {
                    proof {
                        let n = p@.subrange(s as int, e as int);
                        lemma_rfind(n, 46u8);
                        assert(n.subrange(rfind(n, 46u8) + 1, n.len() as int) =~= p@.subrange(
                            x as int,
                            e as int,
                        ));
                    }
                    Some((x, e))
                },
                None => None,
            }
        },
        None => None,
    }
}

/// The span of `Path::file_stem` of `p`.
pub fn file_stem_span(p: &[u8]) -> (r: Option<(usize, usize)>)
    ensures
        match r {
            Some((s, e)) => s <= e <= p@.len() && file_stem(p@) == Some(p@.subrange(s as int, e as int)),
            None => file_stem(p@) is None,
        },
{
    match file_name_span(p) {
        Some((s, e)) => {
            let x = extension_start(p, s, e);
            match x {
                Some(x) => {
                    proof {
                        let n = p@.subrange(s as int, e as int);
                        lemma_rfind(n, 46u8);
                        assert(n.subrange(0, rfind(n, 46u8)) =~= p@.subrange(s as int, x - 1));
                    }
                    Some((s, x - 1))
                },
                None => Some((s, e)),
            }
        },
        None => None,
    }
}

/// `PathBuf::push` on Unix, returning the new path.
pub fn push_path(p: &[u8], q: &[u8]) -> (res: Vec<u8>)
    ensures
        res@ == push(p@, q@),
{
    let mut v: Vec<u8> = Vec::new();
    if q.len() > 0 && q[0] == 47 {
        append_bytes(&mut v, q);
        assert(v@ =~= q@);
        return v;
    }
    append_bytes(&mut v, p);
    if p.len() > 0 && p[p.len() - 1] != 47 {
        v.push(47);
    }
    append_bytes(&mut v, q);
    proof {
        if p@.len() > 0 && p@.last() != sep() {
            assert(v@ =~= p@ + seq![sep()] + q@);
        } else {
            assert(v@ =~= p@ + q@);
        }
    }
    v
}

/// Length of `before_body(p)`.
fn before_body_len(p: &[u8]) -> (r: usize)
    ensures
        r as int == before_body(p@),
{
    if p.len() > 0 && p[0] == 47 {
        1
    } else if p.len() > 0 && p[0] == 46 && (p.len() == 1 || p[1] == 47) {
        1
    } else {
        0
    }
}

/// Length of `trim_right(p[..end], bb)`.
fn trim_right_len(p: &[u8], end: usize, bb: usize) -> (r: usize)
    requires
        end <= p@.len(),
    ensures
        r <= end,
        trim_right(p@.subrange(0, end as int), bb as int) == p@.subrange(0, r as int),
    decreases end,
{
    let ghost q = p@.subrange(0, end as int);
    if end <= bb {
        return end;
    }
    let j = rfind_in(p, end, 47);
    proof {
        lemma_rfind(q, sep());
    }
    match j {
        Some(j) => {
            if j >= bb {
                let seg_len = end - (j + 1);
                let skipped = seg_len == 0 || (seg_len == 1 && p[j + 1] == 46);
                assert(skipped == skipped_component(q.subrange(j + 1, end as int)));
                if skipped {
                    proof {
                        lemma_prefix_of_prefix(p@, end as int, j as int);
                    }
                    return trim_right_len(p, j, bb);
                } else {
                    return end;
                }
            }
        },
        None => {},
    }
    let seg_len = end - bb;
    let skipped = seg_len == 0 || (seg_len == 1 && p[bb] == 46);
    assert(skipped == skipped_component(q.subrange(bb as int, end as int)));
    if skipped {
        proof {
            lemma_prefix_of_prefix(p@, end as int, bb as int);
            assert(q.subrange(0, bb as int) =~= p@.subrange(0, bb as int));
            assert(trim_right(q.subrange(0, bb as int), bb as int) == q.subrange(0, bb as int));
            assert(trim_right(q, bb as int) == trim_right(q.subrange(0, bb as int), bb as int));
        }
        bb
    } else {
        end
    }
}

/// `PathBuf::set_file_name`, returning the new path.
pub fn set_file_name_path(p: &[u8], name: &[u8]) -> (res: Vec<u8>)
    ensures
        res@ == set_file_name(p@, name@),
{
    assert(p@.subrange(0, p@.len() as int) =~= p@);
    match name_span_in(p, p.len()) {
        Some((s, e)) => {
            let dd = e - s == 2 && p[s] == 46 && p[s + 1] == 46;
            assert(dd == is_dot_dot(p@.subrange(s as int, e as int)));
            if dd {
                push_path(p, name)
            } else {
                let bb = before_body_len(p);
                let cut = if s > bb {
                    s - 1
                } else {
                    s
                };
                let n = trim_right_len(p, cut, bb);
                let parent = &p[0..n];
                push_path(parent, name)
            }
        },
        None => push_path(p, name),
    }
}


/// The extension is what follows the last `.` of the file name, when that
/// `.` is not the name's first byte: it holds no `.`, and it is `None`
/// exactly when there is no file name or no `.` after the first byte.
pub proof fn lemma_extension_after_last_dot(p: Seq<u8>)
    ensures
        extension(p) matches Some(x) ==> file_name(p) matches Some(n) && n.len() >= x.len() + 2
            && n[n.len() - x.len() - 1] == 0x2Eu8 && n.subrange(n.len() - x.len(), n.len() as int) == x
            && forall|i: int| 0 <= i < x.len() ==> x[i] != 0x2Eu8,
        extension(p) is None ==> (file_name(p) matches Some(n) ==> forall|i: int| 0 < i < n.len() ==> n[i] != 0x2Eu8),
{
    if let Some(n) = file_name(p) {
        lemma_rfind(n, 46u8);
        let d = rfind(n, 46u8);
        if d > 0 {
            let x = n.subrange(d + 1, n.len() as int);
            assert forall|i: int| 0 <= i < x.len() implies x[i] != 0x2Eu8 by {
                assert(x[i] == n[d + 1 + i]);
            }
        }
    }
}

/// The stem is the file name up to its last `.`, when that `.` is not the
/// name's first byte, and the whole file name otherwise; the stem, a `.` and
/// the extension make up the file name.
pub proof fn lemma_stem_and_extension(p: Seq<u8>)
    ensures
        file_stem(p) is Some <==> file_name(p) is Some,
        extension(p) matches Some(x) ==> file_name(p) == Some(file_stem(p)->0 + seq![0x2Eu8] + x),
        extension(p) is None ==> file_stem(p) == file_name(p),
{
    if let Some(n) = file_name(p) {
        lemma_rfind(n, 46u8);
        let d = rfind(n, 46u8);
        if d > 0 {
            assert(n =~= n.subrange(0, d) + seq![0x2Eu8] + n.subrange(d + 1, n.len() as int));
        }
    }
}

} // verus!
