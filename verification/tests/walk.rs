use lock::walk::{
    build_decrypt_plan, build_encrypt_plan, should_descend, PlanError, WalkEntry,
};

fn entry(path: &str, is_dir: bool) -> WalkEntry {
    WalkEntry { path: path.as_bytes().to_vec(), is_dir }
}

fn pairs(plan: &[lock::walk::PlanEntry]) -> Vec<(String, String)> {
    plan.iter()
        .map(|e| {
            (String::from_utf8(e.src.clone()).unwrap(), String::from_utf8(e.dst.clone()).unwrap())
        })
        .collect()
}

#[test]
fn should_descend_skips_hidden_unless_included() {
    assert!(!should_descend(b"/in/.cache", false));
    assert!(should_descend(b"/in/.cache", true));
    assert!(should_descend(b"/in/photos", false));
}

#[test]
fn encrypt_plan_mirrors_images_with_lock_suffix() {
    let entries = vec![
        entry("/in", true),
        entry("/in/photo.jpg", false),
        entry("/in/notes.txt", false),
        entry("/in/sub", true),
        entry("/in/sub/Raw.CR2", false),
        entry("/in/.secret.png", false),
    ];
    let plan = build_encrypt_plan(b"/in", b"/out", &entries, false, b".lock").unwrap();
    assert_eq!(
        pairs(&plan),
        vec![
            ("/in/photo.jpg".to_string(), "/out/photo.jpg.lock".to_string()),
            ("/in/sub/Raw.CR2".to_string(), "/out/sub/Raw.CR2.lock".to_string()),
        ]
    );
    let plan = build_encrypt_plan(b"/in", b"/out", &entries, true, b".lock").unwrap();
    assert_eq!(plan.len(), 3);
    assert_eq!(plan[2].dst, b"/out/.secret.png.lock".to_vec());
}

#[test]
fn encrypt_plan_of_a_single_file_root() {
    // Walking a file yields the file itself; its relative path is empty.
    let entries = vec![entry("/in/photo.jpg", false)];
    let plan = build_encrypt_plan(b"/in/photo.jpg", b"/abs/out", &entries, false, b".lock").unwrap();
    assert_eq!(pairs(&plan), vec![("/in/photo.jpg".to_string(), "/abs/out.lock".to_string())]);
}

#[test]
fn encrypt_plan_rejects_paths_outside_the_root() {
    let entries = vec![entry("/in/a.jpg", false), entry("/other/b.jpg", false)];
    assert_eq!(
        build_encrypt_plan(b"/in", b"/out", &entries, false, b".lock").unwrap_err(),
        PlanError::RelativePath(b"/other/b.jpg".to_vec())
    );
    let entries = vec![entry("/input/b.jpg", false)];
    assert!(build_encrypt_plan(b"/in", b"/out", &entries, false, b".lock").is_err());
}

#[test]
fn decrypt_plan_strips_the_lock_suffix() {
    let entries = vec![
        entry("/enc", true),
        entry("/enc/photo.jpg.lock", false),
        entry("/enc/sub/b.png.LOCK", false),
        entry("/enc/readme.md", false),
        entry("/enc/.hidden.jpg.lock", false),
        entry("/enc/dir.lock", true),
    ];
    let plan = build_decrypt_plan(b"/enc", b"/dec", &entries, false, b".lock").unwrap();
    assert_eq!(
        pairs(&plan),
        vec![
            ("/enc/photo.jpg.lock".to_string(), "/dec/photo.jpg".to_string()),
            ("/enc/sub/b.png.LOCK".to_string(), "/dec/sub/b.png".to_string()),
        ]
    );
}

#[test]
fn decrypt_plan_accepts_extension_without_dot() {
    let entries = vec![entry("/enc/a.jpg.lock", false)];
    let plan = build_decrypt_plan(b"/enc", b"/dec", &entries, false, b"lock").unwrap();
    assert_eq!(pairs(&plan), vec![("/enc/a.jpg.lock".to_string(), "/dec/a.jpg".to_string())]);
}

#[test]
fn encrypt_then_decrypt_plan_restores_names() {
    let entries = vec![entry("/in/x/photo.jpeg", false)];
    let enc = build_encrypt_plan(b"/in", b"/enc", &entries, false, b".lock").unwrap();
    let walked = vec![entry(std::str::from_utf8(&enc[0].dst).unwrap(), false)];
    let dec = build_decrypt_plan(b"/enc", b"/dec", &walked, false, b".lock").unwrap();
    assert_eq!(dec[0].dst, b"/dec/x/photo.jpeg".to_vec());
}

#[test]
fn decrypting_encrypted_outputs_restores_the_tree() {
    let entries = vec![
        entry("/in", true),
        entry("/in/a.jpg", false),
        entry("/in/x", true),
        entry("/in/x/y", true),
        entry("/in/x/y/b.PNG", false),
        entry("/in/readme.md", false),
    ];
    let enc = build_encrypt_plan(b"/in", b"/enc/out", &entries, false, b".lock").unwrap();
    // walk the output tree in another order, directories included
    let mut walked = vec![entry("/enc/out", true)];
    for e in enc.iter().rev() {
        walked.push(WalkEntry { path: e.dst.clone(), is_dir: false });
    }
    let dec = build_decrypt_plan(b"/enc/out", b"/dec", &walked, false, b".lock").unwrap();
    assert_eq!(
        pairs(&dec),
        vec![
            ("/enc/out/x/y/b.PNG.lock".to_string(), "/dec/x/y/b.PNG".to_string()),
            ("/enc/out/a.jpg.lock".to_string(), "/dec/a.jpg".to_string()),
        ]
    );
}
