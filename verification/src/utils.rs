//! Classification of paths: hidden entries and image files.
use vstd::prelude::*;
use crate::paths::{extension, extension_span, file_name, file_name_span};

verus! {

/// `u8::to_ascii_lowercase`.
pub open spec fn ascii_lower(b: u8) -> u8 {
    if 65 <= b <= 90 {
        (b + 32) as u8
    } else {
        b
    }
}

/// `eq_ignore_ascii_case` on byte strings: same length, and equal bytes
/// once ASCII letters are lowered.
pub open spec fn eq_ignore_ascii_case(a: Seq<u8>, b: Seq<u8>) -> bool {
    a.len() == b.len() && forall|i: int| 0 <= i < a.len() ==> ascii_lower(a[i]) == ascii_lower(b[i])
}

/// The extensions (lower case) of the image formats that are encrypted.
pub open spec fn image_extensions() -> Seq<Seq<u8>> {
    seq![
        seq![106u8, 112u8, 103u8],
        seq![106u8, 112u8, 101u8, 103u8],
        seq![112u8, 110u8, 103u8],
        seq![103u8, 105u8, 102u8],
        seq![98u8, 109u8, 112u8],
        seq![116u8, 105u8, 102u8],
        seq![116u8, 105u8, 102u8, 102u8],
        seq![119u8, 101u8, 98u8, 112u8],
        seq![97u8, 118u8, 105u8, 102u8],
        seq![104u8, 101u8, 105u8, 99u8],
        seq![104u8, 101u8, 105u8, 102u8],
        seq![104u8, 101u8, 105u8, 99u8, 115u8],
        seq![104u8, 101u8, 105u8, 102u8, 115u8],
        seq![100u8, 110u8, 103u8],
        seq![99u8, 114u8, 50u8],
        seq![99u8, 114u8, 51u8],
        seq![110u8, 101u8, 102u8],
        seq![97u8, 114u8, 119u8],
        seq![114u8, 97u8, 102u8],
        seq![114u8, 119u8, 50u8],
        seq![111u8, 114u8, 102u8],
        seq![115u8, 114u8, 50u8],
        seq![112u8, 101u8, 102u8],
        seq![114u8, 97u8, 119u8]
    ]
}

/// A path is hidden when its file name starts with `.`.
pub open spec fn hidden(p: Seq<u8>) -> bool {
    match file_name(p) {
        Some(n) => n[0] == 46u8,
        None => false,
    }
}

/// A path names an image when its extension equals, ignoring ASCII case,
/// one of [`image_extensions`].
pub open spec fn image(p: Seq<u8>) -> bool {
    match extension(p) {
        Some(e) => exists|i: int| 0 <= i < image_extensions().len() && eq_ignore_ascii_case(e, #[trigger] image_extensions()[i]),
        None => false,
    }
}

/// `u8::to_ascii_lowercase`.
pub fn to_ascii_lower(b: u8) -> (r: u8)
    ensures
        r == ascii_lower(b),
{
    if 65 <= b && b <= 90 {
        b + 32
    } else {
        b
    }
}

/// Compares `a[s..e]` with `b`, ignoring ASCII case.
pub fn eq_ignore_case_at(a: &[u8], s: usize, e: usize, b: &[u8]) -> (r: bool)
    requires
        s <= e <= a@.len(),
    ensures
        r == eq_ignore_ascii_case(a@.subrange(s as int, e as int), b@),
{
    if e - s != b.len() {
        return false;
    }
    let mut i: usize = 0;
    while i < b.len()
        invariant
            e - s == b@.len(),
            s <= e <= a@.len(),
            i <= b@.len(),
            forall|j: int| 0 <= j < i ==> ascii_lower(a@[s + j]) == ascii_lower(b@[j]),
        decreases b@.len() - i,
    {
        if to_ascii_lower(a[s + i]) != to_ascii_lower(b[i]) {
            assert(a@.subrange(s as int, e as int)[i as int] == a@[s + i]);
            return false;
        }
        i = i + 1;
    }
    assert forall|j: int| 0 <= j < b@.len() implies ascii_lower(a@.subrange(s as int, e as int)[j])
        == ascii_lower(b@[j]) by {
        assert(a@.subrange(s as int, e as int)[j] == a@[s + j]);
    }
    true
}

/// The `i`-th entry of [`image_extensions`].
fn image_extension(i: usize) -> (r: Vec<u8>)
    requires
        i < image_extensions().len(),
    ensures
        r@ == image_extensions()[i as int],
{
    let r = match i {
        0 => vec![106u8, 112u8, 103u8],  // jpg
        1 => vec![106u8, 112u8, 101u8, 103u8],  // jpeg
        2 => vec![112u8, 110u8, 103u8],  // png
        3 => vec![103u8, 105u8, 102u8],  // gif
        4 => vec![98u8, 109u8, 112u8],  // bmp
        5 => vec![116u8, 105u8, 102u8],  // tif
        6 => vec![116u8, 105u8, 102u8, 102u8],  // tiff
        7 => vec![119u8, 101u8, 98u8, 112u8],  // webp
        8 => vec![97u8, 118u8, 105u8, 102u8],  // avif
        9 => vec![104u8, 101u8, 105u8, 99u8],  // heic
        10 => vec![104u8, 101u8, 105u8, 102u8],  // heif
        11 => vec![104u8, 101u8, 105u8, 99u8, 115u8],  // heics
        12 => vec![104u8, 101u8, 105u8, 102u8, 115u8],  // heifs
        13 => vec![100u8, 110u8, 103u8],  // dng
        14 => vec![99u8, 114u8, 50u8],  // cr2
        15 => vec![99u8, 114u8, 51u8],  // cr3
        16 => vec![110u8, 101u8, 102u8],  // nef
        17 => vec![97u8, 114u8, 119u8],  // arw
        18 => vec![114u8, 97u8, 102u8],  // raf
        19 => vec![114u8, 119u8, 50u8],  // rw2
        20 => vec![111u8, 114u8, 102u8],  // orf
        21 => vec![115u8, 114u8, 50u8],  // sr2
        22 => vec![112u8, 101u8, 102u8],  // pef
        23 => vec![114u8, 97u8, 119u8],  // raw
        _ => vec![114u8, 97u8, 119u8],
    };
    assert(r@ =~= image_extensions()[i as int]);
    r
}

/// Whether the final component of `path` starts with `.` (Unix-style hidden).
pub fn is_hidden(path: &[u8]) -> (res: bool)
    ensures
        res == hidden(path@),
{
    match file_name_span(path) {
        Some((s, _e)) => path[s] == 46,
        None => false,
    }
}

/// Whether `path` has the extension of a supported image format, ignoring
/// ASCII case.
pub fn is_image(path: &[u8]) -> (res: bool)
    ensures
        res == image(path@),
{
    let (s, e) = match extension_span(path) {
        Some(span) => span,
        None => return false,
    };
    let mut i: usize = 0;
    while i < 24
        invariant
            i <= 24,
            image_extensions().len() == 24,
            s <= e <= path@.len(),
            extension(path@) == Some(path@.subrange(s as int, e as int)),
            forall|j: int| 0 <= j < i ==> !eq_ignore_ascii_case(path@.subrange(s as int, e as int), #[trigger] image_extensions()[j]),
        decreases 24 - i,
    {
        let cand = image_extension(i);
        if eq_ignore_case_at(path, s, e, cand.as_slice()) {
            return true;
        }
        i = i + 1;
    }
    false
}


/// Two byte strings are equal ignoring ASCII case exactly when they have the
/// same length and, at each index, the bytes are equal or one is an upper
/// case letter (`A` to `Z`) and the other the same letter in lower case.
pub proof fn lemma_eq_ignore_ascii_case(a: Seq<u8>, b: Seq<u8>)
    ensures
        eq_ignore_ascii_case(a, b) == (a.len() == b.len() && forall|i: int|
            0 <= i < a.len() ==> #[trigger] a[i] == b[i] || (65u8 <= a[i] <= 90u8 && b[i] == a[i] + 32)
                || (65u8 <= b[i] <= 90u8 && a[i] == b[i] + 32)),
{
}

/// Only images are encrypted: a path is an image exactly when it has an
/// extension that equals, ignoring ASCII case, one of jpg, jpeg, png, gif,
/// bmp, tif, tiff, webp, avif, heic, heif, heics, heifs, dng, cr2, cr3, nef,
/// arw, raf, rw2, orf, sr2, pef or raw.
pub proof fn lemma_image_extensions_listed(p: Seq<u8>)
    ensures
        image(p) == (extension(p) matches Some(e) && {
                ||| eq_ignore_ascii_case(e, seq![106u8, 112u8, 103u8])
                ||| eq_ignore_ascii_case(e, seq![106u8, 112u8, 101u8, 103u8])
                ||| eq_ignore_ascii_case(e, seq![112u8, 110u8, 103u8])
                ||| eq_ignore_ascii_case(e, seq![103u8, 105u8, 102u8])
                ||| eq_ignore_ascii_case(e, seq![98u8, 109u8, 112u8])
                ||| eq_ignore_ascii_case(e, seq![116u8, 105u8, 102u8])
                ||| eq_ignore_ascii_case(e, seq![116u8, 105u8, 102u8, 102u8])
                ||| eq_ignore_ascii_case(e, seq![119u8, 101u8, 98u8, 112u8])
                ||| eq_ignore_ascii_case(e, seq![97u8, 118u8, 105u8, 102u8])
                ||| eq_ignore_ascii_case(e, seq![104u8, 101u8, 105u8, 99u8])
                ||| eq_ignore_ascii_case(e, seq![104u8, 101u8, 105u8, 102u8])
                ||| eq_ignore_ascii_case(e, seq![104u8, 101u8, 105u8, 99u8, 115u8])
                ||| eq_ignore_ascii_case(e, seq![104u8, 101u8, 105u8, 102u8, 115u8])
                ||| eq_ignore_ascii_case(e, seq![100u8, 110u8, 103u8])
                ||| eq_ignore_ascii_case(e, seq![99u8, 114u8, 50u8])
                ||| eq_ignore_ascii_case(e, seq![99u8, 114u8, 51u8])
                ||| eq_ignore_ascii_case(e, seq![110u8, 101u8, 102u8])
                ||| eq_ignore_ascii_case(e, seq![97u8, 114u8, 119u8])
                ||| eq_ignore_ascii_case(e, seq![114u8, 97u8, 102u8])
                ||| eq_ignore_ascii_case(e, seq![114u8, 119u8, 50u8])
                ||| eq_ignore_ascii_case(e, seq![111u8, 114u8, 102u8])
                ||| eq_ignore_ascii_case(e, seq![115u8, 114u8, 50u8])
                ||| eq_ignore_ascii_case(e, seq![112u8, 101u8, 102u8])
                ||| eq_ignore_ascii_case(e, seq![114u8, 97u8, 119u8])
        }),
{
    if let Some(e) = extension(p) {
        assert(image_extensions()[0] == seq![106u8, 112u8, 103u8]);
        assert(image_extensions()[1] == seq![106u8, 112u8, 101u8, 103u8]);
        assert(image_extensions()[2] == seq![112u8, 110u8, 103u8]);
        assert(image_extensions()[3] == seq![103u8, 105u8, 102u8]);
        assert(image_extensions()[4] == seq![98u8, 109u8, 112u8]);
        assert(image_extensions()[5] == seq![116u8, 105u8, 102u8]);
        assert(image_extensions()[6] == seq![116u8, 105u8, 102u8, 102u8]);
        assert(image_extensions()[7] == seq![119u8, 101u8, 98u8, 112u8]);
        assert(image_extensions()[8] == seq![97u8, 118u8, 105u8, 102u8]);
        assert(image_extensions()[9] == seq![104u8, 101u8, 105u8, 99u8]);
        assert(image_extensions()[10] == seq![104u8, 101u8, 105u8, 102u8]);
        assert(image_extensions()[11] == seq![104u8, 101u8, 105u8, 99u8, 115u8]);
        assert(image_extensions()[12] == seq![104u8, 101u8, 105u8, 102u8, 115u8]);
        assert(image_extensions()[13] == seq![100u8, 110u8, 103u8]);
        assert(image_extensions()[14] == seq![99u8, 114u8, 50u8]);
        assert(image_extensions()[15] == seq![99u8, 114u8, 51u8]);
        assert(image_extensions()[16] == seq![110u8, 101u8, 102u8]);
        assert(image_extensions()[17] == seq![97u8, 114u8, 119u8]);
        assert(image_extensions()[18] == seq![114u8, 97u8, 102u8]);
        assert(image_extensions()[19] == seq![114u8, 119u8, 50u8]);
        assert(image_extensions()[20] == seq![111u8, 114u8, 102u8]);
        assert(image_extensions()[21] == seq![115u8, 114u8, 50u8]);
        assert(image_extensions()[22] == seq![112u8, 101u8, 102u8]);
        assert(image_extensions()[23] == seq![114u8, 97u8, 119u8]);
        if image(p) {
            let i = choose|i: int|
                0 <= i < image_extensions().len() && eq_ignore_ascii_case(e, #[trigger] image_extensions()[i]);
            if i == 0 {
                assert(eq_ignore_ascii_case(e, seq![106u8, 112u8, 103u8]));
            } else if i == 1 {
                assert(eq_ignore_ascii_case(e, seq![106u8, 112u8, 101u8, 103u8]));
            } else if i == 2 {
                assert(eq_ignore_ascii_case(e, seq![112u8, 110u8, 103u8]));
            } else if i == 3 {
                assert(eq_ignore_ascii_case(e, seq![103u8, 105u8, 102u8]));
            } else if i == 4 {
                assert(eq_ignore_ascii_case(e, seq![98u8, 109u8, 112u8]));
            } else if i == 5 {
                assert(eq_ignore_ascii_case(e, seq![116u8, 105u8, 102u8]));
            } else if i == 6 {
                assert(eq_ignore_ascii_case(e, seq![116u8, 105u8, 102u8, 102u8]));
            } else if i == 7 {
                assert(eq_ignore_ascii_case(e, seq![119u8, 101u8, 98u8, 112u8]));
            } else if i == 8 {
                assert(eq_ignore_ascii_case(e, seq![97u8, 118u8, 105u8, 102u8]));
            } else if i == 9 {
                assert(eq_ignore_ascii_case(e, seq![104u8, 101u8, 105u8, 99u8]));
            } else if i == 10 {
                assert(eq_ignore_ascii_case(e, seq![104u8, 101u8, 105u8, 102u8]));
            } else if i == 11 {
                assert(eq_ignore_ascii_case(e, seq![104u8, 101u8, 105u8, 99u8, 115u8]));
            } else if i == 12 {
                assert(eq_ignore_ascii_case(e, seq![104u8, 101u8, 105u8, 102u8, 115u8]));
            } else if i == 13 {
                assert(eq_ignore_ascii_case(e, seq![100u8, 110u8, 103u8]));
            } else if i == 14 {
                assert(eq_ignore_ascii_case(e, seq![99u8, 114u8, 50u8]));
            } else if i == 15 {
                assert(eq_ignore_ascii_case(e, seq![99u8, 114u8, 51u8]));
            } else if i == 16 {
                assert(eq_ignore_ascii_case(e, seq![110u8, 101u8, 102u8]));
            } else if i == 17 {
                assert(eq_ignore_ascii_case(e, seq![97u8, 114u8, 119u8]));
            } else if i == 18 {
                assert(eq_ignore_ascii_case(e, seq![114u8, 97u8, 102u8]));
            } else if i == 19 {
                assert(eq_ignore_ascii_case(e, seq![114u8, 119u8, 50u8]));
            } else if i == 20 {
                assert(eq_ignore_ascii_case(e, seq![111u8, 114u8, 102u8]));
            } else if i == 21 {
                assert(eq_ignore_ascii_case(e, seq![115u8, 114u8, 50u8]));
            } else if i == 22 {
                assert(eq_ignore_ascii_case(e, seq![112u8, 101u8, 102u8]));
            } else if i == 23 {
                assert(eq_ignore_ascii_case(e, seq![114u8, 97u8, 119u8]));
            }
        }
    }
}

/// A path is hidden exactly when it has a file name whose first byte is `.`
/// (0x2E); names starting with any other byte, digits among them, are
/// visible.
pub proof fn lemma_hidden_is_leading_dot(p: Seq<u8>)
    ensures
        hidden(p) == (file_name(p) matches Some(n) && n[0] == 0x2Eu8),
{
}

} // verus!
