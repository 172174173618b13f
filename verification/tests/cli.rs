//! The end-to-end command flows, driven against the library the way the
//! shell drives them, with the engine's answers scripted.

use gh_sync::config::{removal_commands, Config};
use gh_sync::gitops::ensure_remote;
use gh_sync::orchestrator::{
    can_derive_remote_name, connect_commit, derive_remote_name, list_mappings, pull_start,
    PullPhase,
};

/// Mirrors the connect flow: derive the remote name, register the remote
/// (the engine knows none yet), commit the mapping.
fn connect(cfg: &mut Config, subdir: &str, url: &str, branch: &str) -> String {
    assert!(can_derive_remote_name(url));
    let name = derive_remote_name(url);
    let registration = ensure_remote(&name, url, None);
    assert!(registration.is_some());
    let committed = connect_commit(cfg, subdir, url, branch, &name, true, "");
    assert!(committed.is_ok());
    name
}

#[test]
fn connect_and_list_roundtrip() {
    let mut cfg = Config::new();
    let name = connect(&mut cfg, "app", "git@github.com:a/b.gitt", "dev_ui");
    assert_eq!(name, "b.gitt");

    let listed = list_mappings(&cfg).expect("one mapping should be listed");
    assert_eq!(listed.len(), 1);
    assert_eq!(listed[0].subdir, "app");
    assert_eq!(listed[0].remote, "b.gitt");
    assert_eq!(listed[0].url, "git@github.com:a/b.gitt");
    assert_eq!(listed[0].branch, "dev_ui");

    let text = cfg.render_config_text();
    let back = Config::load(true, &text);
    let listed = list_mappings(&back).expect("the mapping survives save and load");
    assert_eq!(listed.len(), 1);
    assert_eq!(listed[0].subdir, "app");
    assert_eq!(listed[0].url, "git@github.com:a/b.gitt");
}

#[test]
fn pull_falls_back_to_add() {
    let mut cfg = Config::new();
    connect(&mut cfg, "app", "git@github.com:a/b.gitt", "main");

    let mut session = pull_start(&cfg, "app", None, None).expect("app is connected");
    let cmd = session.next_command().expect("a fetch comes first");
    assert_eq!(cmd, vec!["fetch", "b.gitt", "main"]);
    session.on_result(true, "");

    let cmd = session.next_command().expect("then the merge attempt");
    assert_eq!(
        cmd,
        vec!["subtree", "pull", "--prefix", "app", "b.gitt", "main", "--squash"]
    );
    session.on_result(false, "hint: use 'git subtree add'\n");

    let cmd = session.next_command().expect("the refused merge becomes an import");
    assert_eq!(
        cmd,
        vec!["subtree", "add", "--prefix", "app", "b.gitt", "main", "--squash"]
    );
    session.on_result(true, "");
    assert!(matches!(session.phase, PullPhase::Done));
    assert!(session.next_command().is_none());
}

#[test]
fn pull_with_custom_message() {
    let mut cfg = Config::new();
    connect(&mut cfg, "app", "git@github.com:a/b.gitt", "main");

    let mut session = pull_start(&cfg, "app", None, Some("custom")).expect("app is connected");
    session.on_result(true, "");

    let cmd = session.next_command().expect("the merge attempt");
    assert_eq!(
        cmd,
        vec!["subtree", "pull", "--prefix", "app", "b.gitt", "main", "-m", "custom", "--squash"]
    );
    session.on_result(false, "hint: use 'git subtree add'\n");

    let cmd = session.next_command().expect("the import retry");
    assert_eq!(
        cmd,
        vec!["subtree", "add", "--prefix", "app", "b.gitt", "main", "-m", "custom", "--squash"]
    );
    session.on_result(true, "");
    assert!(matches!(session.phase, PullPhase::Done));
}

#[test]
fn remove_mapping() {
    let mut cfg = Config::new();
    connect(&mut cfg, "app", "git@github.com:a/b.gitt", "main");

    // persist the connect, then reload as the next invocation would
    let listing = cfg.render_config_text();
    let mut cfg = Config::load(true, &listing);

    let removed = cfg.remove("app");
    assert!(removed);
    // the removal persists through these unset commands, which clear
    // exactly the removed name's keys from the engine's configuration
    let cmds = removal_commands("app");
    assert_eq!(
        cmds,
        vec![
            vec!["config", "--local", "--unset-all", "gh-sync.app.remote"],
            vec!["config", "--local", "--unset-all", "gh-sync.app.url"],
            vec!["config", "--local", "--unset-all", "gh-sync.app.branch"],
        ]
    );
    // the listing the engine prints afterwards is that of the emptied
    // registry, and a fresh invocation's list finds no mapping
    let listing_after = cfg.render_config_text();
    assert_eq!(listing_after, "");
    let reloaded = Config::load(true, &listing_after);
    assert!(list_mappings(&reloaded).is_none());

    let removed_again = cfg.remove("app");
    assert!(!removed_again);
}
