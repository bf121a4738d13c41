use rpmstore::sync::{
    classify, backoff, retry_call, fetch_error, locate, ensure_slash, join_url, needs_sync,
    FetchOutcome, RetryDecision, CallResult, SyncError,
};
use rpmstore::repomd::{RepoMD, RepoMDItem, Type, Checksum, Location};
use rpmstore::data::{Repo, Uuid};
use rpmstore::strutil::{substitute, str_eq};
use rpmstore::magic::{SeedField, ItemAction, IterState};

fn md_with(types: &[Type]) -> RepoMD {
    let data = types
        .iter()
        .map(|t| RepoMDItem {
            typ: *t,
            checksum: Checksum { typ: "sha256".to_string(), value: "00".to_string() },
            location: Location { href: format!("repodata/{:?}.xml.gz", t) },
            open_checksum: None,
            size: None,
            open_size: None,
        })
        .collect();
    RepoMD { revision: 42, data }
}

#[test]
fn retry_classification() {
    // two transient failures, then success: third attempt wins, two delays
    let outs = vec![
        FetchOutcome::Status(500),
        FetchOutcome::Status(503),
        FetchOutcome::Success,
    ];
    let (result, delays) = retry_call(&outs);
    assert_eq!(result, CallResult::Succeeded(3));
    assert_eq!(delays, vec![1600, 3200]);

    // a 4xx fails at once, with no backoff
    let outs = vec![FetchOutcome::Status(404)];
    let (result, delays) = retry_call(&outs);
    assert_eq!(result, CallResult::Failed(1));
    assert!(delays.is_empty());
}

#[test]
fn retries_are_bounded() {
    let outs = vec![FetchOutcome::Timeout; 10];
    let (result, delays) = retry_call(&outs);
    assert_eq!(result, CallResult::Exhausted(6));
    assert_eq!(delays, vec![1600, 3200, 6400, 12800, 25600]);
}

#[test]
fn classifier_cases() {
    assert_eq!(classify(&FetchOutcome::Dns), RetryDecision::Retry);
    assert_eq!(classify(&FetchOutcome::Timeout), RetryDecision::Retry);
    assert_eq!(classify(&FetchOutcome::Transport), RetryDecision::Fail);
    assert_eq!(classify(&FetchOutcome::Status(500)), RetryDecision::Retry);
    assert_eq!(classify(&FetchOutcome::Status(599)), RetryDecision::Retry);
    assert_eq!(classify(&FetchOutcome::Status(404)), RetryDecision::Fail);
    assert_eq!(classify(&FetchOutcome::Status(301)), RetryDecision::Fail);
    assert_eq!(classify(&FetchOutcome::Success), RetryDecision::Done);
}

#[test]
fn backoff_schedule_is_exponential() {
    assert_eq!(backoff(), vec![1600, 3200, 6400, 12800, 25600]);
}

#[test]
fn fetch_errors_follow_taxonomy() {
    assert_eq!(fetch_error(&FetchOutcome::Dns), SyncError::Dns);
    assert_eq!(fetch_error(&FetchOutcome::Timeout), SyncError::Timeout);
    assert_eq!(fetch_error(&FetchOutcome::Transport), SyncError::Transport);
    assert_eq!(fetch_error(&FetchOutcome::Status(403)), SyncError::Status(403));
}

#[test]
fn locate_reports_missing_kind() {
    let md = md_with(&[Type::Primary, Type::UpdateInfo]);
    assert_eq!(md.find_item(Type::Primary).unwrap().typ, Type::Primary);
    assert!(md.find_item(Type::Modules).is_none());
    assert!(locate(&md, Type::Primary).is_ok());
    assert_eq!(locate(&md, Type::Modules).unwrap_err(), SyncError::TypeNotFound(Type::Modules));
}

#[test]
fn url_helpers() {
    assert_eq!(ensure_slash("https://host/repo"), "https://host/repo/");
    assert_eq!(ensure_slash("https://host/repo/"), "https://host/repo/");
    assert_eq!(join_url("https://host/repo/", "repodata/repomd.xml"),
        "https://host/repo/repodata/repomd.xml");
}

#[test]
fn revision_decision() {
    let stored = |rev: Option<i32>| Some(Repo {
        id: Uuid(1),
        url: "u".to_string(),
        basearch: None,
        releasever: None,
        revision: rev,
    });
    assert!(needs_sync(&None, 5));
    assert!(needs_sync(&stored(None), 5));
    assert!(needs_sync(&stored(Some(4)), 5));
    assert!(!needs_sync(&stored(Some(5)), 5));
    assert!(!needs_sync(&stored(Some(6)), 5));
}

#[test]
fn substitution_rewrites_placeholders() {
    assert_eq!(
        substitute("https://h/$basearch/os/$basearch", "$basearch", "x86_64"),
        "https://h/x86_64/os/x86_64"
    );
    assert_eq!(substitute("no placeholder", "$basearch", "x"), "no placeholder");
    assert!(str_eq("abc", "abc"));
    assert!(!str_eq("abc", "abd"));
}

#[test]
fn streaming_harness_decisions() {
    let seed = SeedField::new(&["package"], ());
    assert!(seed.wants("package"));
    assert!(!seed.wants("garbage"));

    let mut walk: ItemAction<u32> = ItemAction::new();
    assert!(!walk.absorb(IterState::Continue));
    assert!(walk.absorb(IterState::Break(7)));
    assert_eq!(walk.outcome, Some(7));
}
