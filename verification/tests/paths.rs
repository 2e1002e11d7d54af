use lock::paths::{
    extension_span, file_name_span, file_stem_span, push_path, set_file_name_path,
};
use lock::utils::{is_hidden, is_image};
use std::path::{Path, PathBuf};

const SAMPLES: &[&str] = &[
    "", "/", ".", "..", "a", "/a", "a/", "a/b", "a/b/", "a/b/.", "a/./b", "./a", "./",
    "//a", "a//", "/a/..", "a/..", "../a", ".hidden", "dir/.hidden", "photo.jpg",
    "dir/photo.JPG", "archive.tar.gz", "noext.", ".only", "..double", "a/b.c/d",
    "/abs/out/", "/abs/out", "x/y/./", "./.", "/.", "a.b.c.d", "dir/.git/config",
];

fn span_str(p: &str, span: Option<(usize, usize)>) -> Option<&str> {
    span.map(|(s, e)| &p[s..e])
}

#[test]
fn file_name_matches_std_path() {
    for p in SAMPLES {
        let ours = span_str(p, file_name_span(p.as_bytes()));
        let std = Path::new(p).file_name().map(|s| s.to_str().unwrap());
        assert_eq!(ours, std, "file_name of {:?}", p);
    }
}

#[test]
fn extension_matches_std_path() {
    for p in SAMPLES {
        let ours = span_str(p, extension_span(p.as_bytes()));
        let std = Path::new(p).extension().map(|s| s.to_str().unwrap());
        assert_eq!(ours, std, "extension of {:?}", p);
    }
}

#[test]
fn file_stem_matches_std_path() {
    for p in SAMPLES {
        let ours = span_str(p, file_stem_span(p.as_bytes()));
        let std = Path::new(p).file_stem().map(|s| s.to_str().unwrap());
        assert_eq!(ours, std, "file_stem of {:?}", p);
    }
}

#[test]
fn push_matches_std_pathbuf() {
    for p in SAMPLES {
        for q in ["", "b", "b/c", "/root", "x.lock"] {
            let ours = push_path(p.as_bytes(), q.as_bytes());
            let mut std = PathBuf::from(p);
            std.push(q);
            assert_eq!(ours, std.to_str().unwrap().as_bytes(), "push {:?} {:?}", p, q);
        }
    }
}

#[test]
fn set_file_name_matches_std_pathbuf() {
    for p in SAMPLES {
        for n in ["file", "x.lock", "photo.jpg"] {
            let ours = set_file_name_path(p.as_bytes(), n.as_bytes());
            let mut std = PathBuf::from(p);
            std.set_file_name(n);
            assert_eq!(ours, std.to_str().unwrap().as_bytes(), "set_file_name {:?} {:?}", p, n);
        }
    }
}

#[test]
fn hidden_entries() {
    assert!(is_hidden(b".hidden"));
    assert!(is_hidden(b"dir/.git"));
    assert!(is_hidden(b"/a/..b"));
    assert!(!is_hidden(b"dir/visible"));
    assert!(!is_hidden(b"."));
    assert!(!is_hidden(b".."));
    assert!(!is_hidden(b"/"));
    assert!(!is_hidden(b""));
    assert!(!is_hidden(b".hidden/visible"));
    assert!(is_hidden(b"a/.x/"));
}

#[test]
fn image_extensions_ignore_case() {
    for name in [
        "a.jpg", "a.JPEG", "a.Png", "a.gif", "a.bmp", "a.tif", "a.TIFF", "a.webp", "a.avif",
        "a.heic", "a.heif", "a.heics", "a.heifs", "a.dng", "a.CR2", "a.cr3", "a.nef", "a.arw",
        "a.raf", "a.rw2", "a.orf", "a.sr2", "a.pef", "a.raw", "dir/photo.JpG",
    ] {
        assert!(is_image(name.as_bytes()), "{}", name);
    }
    for name in ["a.txt", "jpg", ".jpg", "a.jpg.lock", "a.jpgx", "a.", "dir.jpg/", "a.jp g"] {
        let expected = name == "dir.jpg/";
        assert_eq!(is_image(name.as_bytes()), expected, "{}", name);
    }
}
