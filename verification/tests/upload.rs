use lock::options::Provider;
use lock::upload::{
    check_owner, check_provider, check_repo_meta, commit_message, existing_file_sha, is_lock_file, lookup_warns,
    parse_owner_repo, prepare_upload, resolve_token, target_repo, total_size, upload_candidate,
    CommitAction, UploadError, UploadTally,
};
use lock::walk::PlanError;

#[test]
fn owner_repo_split_at_first_slash() {
    assert_eq!(
        parse_owner_repo("alice/backup"),
        Some(("alice".to_string(), "backup".to_string()))
    );
    assert_eq!(parse_owner_repo("a/b/c"), Some(("a".to_string(), "b/c".to_string())));
    assert_eq!(parse_owner_repo("/x"), Some((String::new(), "x".to_string())));
    assert_eq!(parse_owner_repo("ünï/cödé"), Some(("ünï".to_string(), "cödé".to_string())));
    assert_eq!(parse_owner_repo("noslash"), None);
}

#[test]
fn target_repo_errors() {
    assert_eq!(target_repo(None), Err(UploadError::MissingRepo));
    assert_eq!(target_repo(Some("nope")), Err(UploadError::BadRepo));
    assert_eq!(target_repo(Some("me/r")), Ok(("me".to_string(), "r".to_string())));
}

#[test]
fn token_from_argument_then_environment() {
    assert_eq!(resolve_token(Some("a".into()), Some("b".into())), Ok("a".to_string()));
    assert_eq!(resolve_token(None, Some("b".into())), Ok("b".to_string()));
    assert_eq!(resolve_token(None, None), Err(UploadError::MissingToken));
}

#[test]
fn only_own_user_repositories() {
    assert_eq!(check_owner("alice", "alice"), Ok(()));
    assert_eq!(check_owner("alice", "Alice"), Err(UploadError::NotOwnRepo));
    assert_eq!(check_repo_meta(Some("User"), Some(true)), Ok(false));
    assert_eq!(check_repo_meta(Some("User"), Some(false)), Ok(true));
    assert_eq!(check_repo_meta(None, None), Ok(true));
    assert_eq!(check_repo_meta(Some("Organization"), Some(true)), Err(UploadError::OrganizationRepo));
}

#[test]
fn providers() {
    assert_eq!(check_provider(&Provider::Github), Ok(()));
    assert_eq!(check_provider(&Provider::Drive), Err(UploadError::UnsupportedProvider));
    assert_eq!(check_provider(&Provider::Onedrive), Err(UploadError::UnsupportedProvider));
}

#[test]
fn upload_candidates() {
    assert!(is_lock_file(b"a/b.jpg.LOCK"));
    assert!(!is_lock_file(b"a/b.jpg"));
    assert!(!is_lock_file(b".lock"));
    assert_eq!(upload_candidate(b"/r", b"/r/x/a.lock", true), Ok(Some("x/a.lock".to_string())));
    assert_eq!(upload_candidate(b"/r", b"/r/x\\y.lock", true), Ok(Some("x/y.lock".to_string())));
    assert_eq!(upload_candidate(b"/r", b"/r/a.lock", false), Ok(None));
    assert_eq!(upload_candidate(b"/r", b"/r/a.txt", true), Ok(None));
    assert_eq!(
        upload_candidate(b"/r", b"/q/a.lock", true),
        Err(PlanError::RelativePath(b"/q/a.lock".to_vec()))
    );
    assert_eq!(
        upload_candidate(b"/r", b"/r/\xffa.lock", true),
        Ok(Some("\u{FFFD}a.lock".to_string()))
    );
}

#[test]
fn totals_and_tally() {
    assert_eq!(total_size(&vec![1, 2, 3]), 6);
    assert_eq!(total_size(&vec![]), 0);
    let mut t = UploadTally::new();
    t.record(true, 10);
    t.record(false, 5);
    t.record(true, 7);
    assert_eq!((t.uploaded, t.failed, t.uploaded_bytes), (2, 1, 17));
    assert_eq!(t.outcome(), Err(UploadError::Failed(1)));
    let mut ok = UploadTally::new();
    ok.record(true, 1);
    assert_eq!(ok.outcome(), Ok(()));
}

#[test]
fn commit_preparation() {
    let items = vec![
        ("dir".to_string(), "111".to_string()),
        ("file".to_string(), "222".to_string()),
        ("file".to_string(), "333".to_string()),
    ];
    assert_eq!(existing_file_sha(&items), Some("222".to_string()));
    assert_eq!(existing_file_sha(&vec![]), None);
    assert!(lookup_warns(Some(500)));
    assert!(lookup_warns(None));
    assert!(!lookup_warns(Some(404)));
    let (action, content) = prepare_upload(b"foobar", None);
    assert_eq!(action, CommitAction::Create);
    assert_eq!(content, "Zm9vYmFy");
    let (action, content) = prepare_upload(b"fo", Some("abc".into()));
    assert_eq!(action, CommitAction::Update("abc".to_string()));
    assert_eq!(content, "Zm8=");
    assert_eq!(prepare_upload(b"", None).1, "");
    assert_eq!(prepare_upload(b"f", None).1, "Zg==");
}

#[test]
fn commit_messages_name_the_file() {
    assert_eq!(commit_message(&CommitAction::Create, "a/b.lock"), "Add a/b.lock");
    assert_eq!(
        commit_message(&CommitAction::Update("abc".to_string()), "x.lock"),
        "Update x.lock"
    );
}
