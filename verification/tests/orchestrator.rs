//! The sync orchestrator: remote-name derivation, remote registration,
//! the pull state machine with its first-time-import fallback, push, and
//! error reporting.

use gh_sync::config::{Config, Mapping};
use gh_sync::gitops::{ensure_remote, fetch, is_missing_subtree_diag, subtree_push};
use gh_sync::orchestrator::{
    connect_commit, derive_remote_name, list_mappings, pull_start, push_finish, push_start,
    PullPhase, SyncError,
};

fn mapping(subdir: &str, remote: &str, url: &str, branch: &str) -> Mapping {
    Mapping {
        subdir: subdir.to_string(),
        remote: remote.to_string(),
        url: url.to_string(),
        branch: branch.to_string(),
    }
}

#[test]
fn derives_remote_name_from_url() {
    assert_eq!(derive_remote_name("https://example.com/org/widgets.git"), "widgets");
    // only the version-control suffix is stripped, not arbitrary endings
    assert_eq!(derive_remote_name("git@github.com:a/b.gitt"), "b.gitt");
    assert_eq!(derive_remote_name("a/b.git"), "b");
    assert_eq!(derive_remote_name("a/b"), "b");
    assert_eq!(derive_remote_name("repo"), "repo");
    assert_eq!(derive_remote_name("x/y/"), "y");
    assert_eq!(derive_remote_name("a/.git"), ".git");
    assert_eq!(derive_remote_name("a/b.c.d"), "b.c.d");
}

#[test]
fn ensure_remote_registers_when_unknown() {
    let cmd = ensure_remote("widgets", "https://example.com/org/widgets.git", None);
    assert_eq!(
        cmd.expect("an unknown remote is added"),
        vec!["remote", "add", "widgets", "https://example.com/org/widgets.git"]
    );
}

#[test]
fn ensure_remote_corrects_a_changed_url() {
    let cmd = ensure_remote("widgets", "https://new.example/widgets.git", Some("https://old.example/widgets.git\n"));
    assert_eq!(
        cmd.expect("a differing URL is re-pointed"),
        vec!["remote", "set-url", "widgets", "https://new.example/widgets.git"]
    );
}

#[test]
fn ensure_remote_is_idempotent_on_matching_url() {
    // the engine prints the registered URL with a trailing newline
    let cmd = ensure_remote("widgets", "https://example.com/org/widgets.git", Some("https://example.com/org/widgets.git\n"));
    assert!(cmd.is_none());
}

#[test]
fn connect_twice_leaves_one_record() {
    let mut cfg = Config::new();
    let url = "https://example.com/org/widgets.git";
    // first connect: no remote registered yet
    let first = ensure_remote("widgets", url, None);
    assert_eq!(first.expect("first connect registers"), vec!["remote", "add", "widgets", url]);
    connect_commit(&mut cfg, "docs", url, "main", "widgets", true, "").expect("first connect commits");
    // second connect with identical inputs: the remote already carries the URL
    let second = ensure_remote("widgets", url, Some("https://example.com/org/widgets.git\n"));
    assert!(second.is_none());
    connect_commit(&mut cfg, "docs", url, "main", "widgets", true, "").expect("second connect commits");
    assert_eq!(cfg.len(), 1);
    let m = cfg.get("docs").expect("exactly one record");
    assert_eq!(m.remote, "widgets");
    assert_eq!(m.url, url);
    assert_eq!(m.branch, "main");
}

#[test]
fn failed_registration_commits_nothing() {
    let mut cfg = Config::new();
    let r = connect_commit(&mut cfg, "docs", "u", "main", "widgets", false, "remote add refused");
    match r {
        Err(SyncError::Engine(d)) => assert_eq!(d, "remote add refused"),
        _ => panic!("a failed registration must be fatal"),
    }
    assert_eq!(cfg.len(), 0);
    assert!(cfg.get("docs").is_none());
}

#[test]
fn unknown_mapping_is_rejected_by_name() {
    let cfg = Config::new();
    match pull_start(&cfg, "nonexistent", None, None) {
        Err(e) => {
            match &e {
                SyncError::NotConnected(n) => assert_eq!(n, "nonexistent"),
                _ => panic!("pull of an unknown name is NotConnected"),
            }
            assert_eq!(e.message(), "nonexistent not connected");
        },
        Ok(_) => panic!("pull of an unknown name must fail"),
    }
    match push_start(&cfg, "nonexistent", None, None) {
        Err(SyncError::NotConnected(n)) => assert_eq!(n, "nonexistent"),
        _ => panic!("push of an unknown name must fail"),
    }
}

#[test]
fn pull_uses_stored_branch_by_default() {
    let mut cfg = Config::new();
    cfg.upsert(mapping("docs", "widgets", "u", "stored"));
    let session = pull_start(&cfg, "docs", None, None).expect("docs is connected");
    assert_eq!(session.next_command().expect("fetch first"), vec!["fetch", "widgets", "stored"]);
}

#[test]
fn pull_branch_override_takes_precedence() {
    let mut cfg = Config::new();
    cfg.upsert(mapping("docs", "widgets", "u", "stored"));
    let mut session = pull_start(&cfg, "docs", Some("x"), None).expect("docs is connected");
    assert_eq!(session.next_command().expect("fetch first"), vec!["fetch", "widgets", "x"]);
    session.on_result(true, "");
    assert_eq!(
        session.next_command().expect("then the merge"),
        vec!["subtree", "pull", "--prefix", "docs", "widgets", "x", "--squash"]
    );
}

#[test]
fn fetch_failure_is_fatal_verbatim() {
    let mut cfg = Config::new();
    cfg.upsert(mapping("docs", "widgets", "u", "main"));
    let mut session = pull_start(&cfg, "docs", None, None).unwrap();
    session.on_result(false, "fatal: could not read from remote repository");
    match &session.phase {
        PullPhase::Failed(d) => assert_eq!(d, "fatal: could not read from remote repository"),
        _ => panic!("a failed fetch ends the pull"),
    }
    assert!(session.next_command().is_none());
    assert!(!session.is_pending());
}

#[test]
fn unrelated_merge_failure_is_not_retried() {
    let mut cfg = Config::new();
    cfg.upsert(mapping("docs", "widgets", "u", "main"));
    let mut session = pull_start(&cfg, "docs", None, None).unwrap();
    session.on_result(true, "");
    session.on_result(false, "fatal: working tree has modifications");
    match &session.phase {
        PullPhase::Failed(d) => {
            assert_eq!(d, "git subtree pull failed: fatal: working tree has modifications")
        },
        _ => panic!("an unrecognised merge failure is fatal"),
    }
    assert!(session.next_command().is_none());
}

#[test]
fn failed_import_retry_is_fatal() {
    let mut cfg = Config::new();
    cfg.upsert(mapping("docs", "widgets", "u", "main"));
    let mut session = pull_start(&cfg, "docs", None, None).unwrap();
    session.on_result(true, "");
    session.on_result(false, "hint: use 'git subtree add'");
    session.on_result(false, "fatal: prefix already exists");
    match &session.phase {
        PullPhase::Failed(d) => assert_eq!(d, "fatal: prefix already exists"),
        _ => panic!("a failed import is fatal"),
    }
}

#[test]
fn missing_subtree_predicate_is_narrow() {
    assert!(is_missing_subtree_diag("hint: use 'git subtree add'"));
    assert!(is_missing_subtree_diag("fatal: ...\nhint: use 'git subtree add' instead\n"));
    assert!(!is_missing_subtree_diag("fatal: could not find remote"));
    assert!(!is_missing_subtree_diag("use git subtree add"));
    assert!(!is_missing_subtree_diag(""));
}

#[test]
fn push_issues_one_command_without_fallback() {
    let mut cfg = Config::new();
    cfg.upsert(mapping("docs", "widgets", "u", "main"));
    let plan = push_start(&cfg, "docs", None, None).expect("docs is connected");
    assert_eq!(plan.command, vec!["subtree", "push", "--prefix", "docs", "widgets", "main"]);
    assert_eq!(plan.subdir, "docs");
    assert_eq!(plan.remote, "widgets");
    assert_eq!(plan.branch, "main");
    assert!(push_finish(true, "").is_ok());
    match push_finish(false, "rejected") {
        Err(SyncError::Engine(d)) => assert_eq!(d, "rejected"),
        _ => panic!("a failed push is fatal"),
    }
}

#[test]
fn push_honours_branch_override() {
    let mut cfg = Config::new();
    cfg.upsert(mapping("docs", "widgets", "u", "stored"));
    let plan = push_start(&cfg, "docs", Some("x"), None).expect("docs is connected");
    assert_eq!(plan.command, vec!["subtree", "push", "--prefix", "docs", "widgets", "x"]);
    assert_eq!(plan.branch, "x");
}

#[test]
fn list_is_explicit_about_emptiness() {
    let mut cfg = Config::new();
    assert!(list_mappings(&cfg).is_none());
    cfg.upsert(mapping("docs", "widgets", "u", "main"));
    let listed = list_mappings(&cfg).expect("one mapping listed");
    assert_eq!(listed.len(), 1);
    assert_eq!(listed[0].subdir, "docs");
}

#[test]
fn command_builders_emit_exact_argv() {
    assert_eq!(fetch("widgets", "main"), vec!["fetch", "widgets", "main"]);
    assert_eq!(
        subtree_push("docs", "widgets", "main", Some("note")),
        vec!["subtree", "push", "--prefix", "docs", "widgets", "main", "-m", "note"]
    );
}

#[test]
fn example_scenario_connect_pull_twice_push() {
    let mut cfg = Config::new();
    let url = "https://example.com/org/widgets.git";
    // connect docs: the remote name derives to widgets, which gets registered
    let name = derive_remote_name(url);
    assert_eq!(name, "widgets");
    assert_eq!(
        ensure_remote(&name, url, None).expect("widgets gets registered"),
        vec!["remote", "add", "widgets", url]
    );
    connect_commit(&mut cfg, "docs", url, "main", &name, true, "").expect("connect commits");
    // first pull: the engine reports no prior subtree, so it imports
    let mut first = pull_start(&cfg, "docs", None, None).expect("docs is connected");
    first.on_result(true, "");
    first.on_result(false, "hint: use 'git subtree add'");
    assert_eq!(
        first.next_command().expect("the first pull imports"),
        vec!["subtree", "add", "--prefix", "docs", "widgets", "main", "--squash"]
    );
    first.on_result(true, "");
    assert!(matches!(first.phase, PullPhase::Done));
    // second pull: history exists now, so the merge succeeds
    let mut second = pull_start(&cfg, "docs", None, None).expect("docs is connected");
    second.on_result(true, "");
    assert_eq!(
        second.next_command().expect("the second pull merges"),
        vec!["subtree", "pull", "--prefix", "docs", "widgets", "main", "--squash"]
    );
    second.on_result(true, "");
    assert!(matches!(second.phase, PullPhase::Done));
    // push docs: the subdirectory's history goes to widgets/main
    let plan = push_start(&cfg, "docs", None, None).expect("docs is connected");
    assert_eq!(plan.command, vec!["subtree", "push", "--prefix", "docs", "widgets", "main"]);
}
