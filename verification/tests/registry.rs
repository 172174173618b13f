//! The mapping registry: lookup, upsert, remove, and the key/value
//! persistence codec.

use gh_sync::config::{removal_commands, Config, Mapping};

fn mapping(subdir: &str, remote: &str, url: &str, branch: &str) -> Mapping {
    Mapping {
        subdir: subdir.to_string(),
        remote: remote.to_string(),
        url: url.to_string(),
        branch: branch.to_string(),
    }
}

fn assert_mapping(m: &Mapping, subdir: &str, remote: &str, url: &str, branch: &str) {
    assert_eq!(m.subdir, subdir);
    assert_eq!(m.remote, remote);
    assert_eq!(m.url, url);
    assert_eq!(m.branch, branch);
}

#[test]
fn upsert_then_get() {
    let mut cfg = Config::new();
    assert!(cfg.get("docs").is_none());
    cfg.upsert(mapping("docs", "widgets", "https://example.com/org/widgets.git", "main"));
    let m = cfg.get("docs").expect("docs was inserted");
    assert_mapping(m, "docs", "widgets", "https://example.com/org/widgets.git", "main");
    assert_eq!(cfg.len(), 1);
}

#[test]
fn upsert_replaces_whole_record() {
    let mut cfg = Config::new();
    cfg.upsert(mapping("docs", "widgets", "https://old.example/widgets.git", "main"));
    cfg.upsert(mapping("docs", "gadgets", "https://new.example/gadgets.git", "dev"));
    assert_eq!(cfg.len(), 1);
    let m = cfg.get("docs").expect("docs is still there");
    assert_mapping(m, "docs", "gadgets", "https://new.example/gadgets.git", "dev");
}

#[test]
fn remove_reports_presence() {
    let mut cfg = Config::new();
    cfg.upsert(mapping("docs", "widgets", "u", "main"));
    cfg.upsert(mapping("app", "b", "v", "main"));
    assert!(cfg.remove("docs"));
    assert!(cfg.get("docs").is_none());
    assert!(cfg.get("app").is_some());
    assert_eq!(cfg.len(), 1);
    assert!(!cfg.remove("docs"));
    assert_eq!(cfg.len(), 1);
}

#[test]
fn save_emits_one_replace_per_field() {
    let mut cfg = Config::new();
    cfg.upsert(mapping("docs", "widgets", "https://example.com/org/widgets.git", "main"));
    let cmds = cfg.save();
    assert_eq!(cmds.len(), 3);
    assert_eq!(
        cmds[0],
        vec!["config", "--local", "--replace-all", "gh-sync.docs.remote", "widgets"]
    );
    assert_eq!(
        cmds[1],
        vec![
            "config",
            "--local",
            "--replace-all",
            "gh-sync.docs.url",
            "https://example.com/org/widgets.git"
        ]
    );
    assert_eq!(
        cmds[2],
        vec!["config", "--local", "--replace-all", "gh-sync.docs.branch", "main"]
    );
}

#[test]
fn round_trip_keeps_every_mapping() {
    let mut cfg = Config::new();
    cfg.upsert(mapping("docs", "widgets", "https://example.com/org/widgets.git", "main"));
    cfg.upsert(mapping("app", "b", "git@github.com:a/b.gitt", "dev_ui"));
    cfg.upsert(mapping("third", "t", "url with spaces ok", ""));

    let text = cfg.render_config_text();
    let back = Config::load(true, &text);

    assert_eq!(back.len(), 3);
    assert_mapping(
        back.get("docs").expect("docs round trips"),
        "docs",
        "widgets",
        "https://example.com/org/widgets.git",
        "main",
    );
    assert_mapping(
        back.get("app").expect("app round trips"),
        "app",
        "b",
        "git@github.com:a/b.gitt",
        "dev_ui",
    );
    assert_mapping(back.get("third").expect("third round trips"), "third", "t", "url with spaces ok", "");
}

#[test]
fn round_trip_of_empty_registry() {
    let cfg = Config::new();
    let text = cfg.render_config_text();
    assert_eq!(text, "");
    let back = Config::load(true, &text);
    assert_eq!(back.len(), 0);
}

#[test]
fn rendered_text_matches_listing_format() {
    let mut cfg = Config::new();
    cfg.upsert(mapping("docs", "widgets", "u", "main"));
    assert_eq!(
        cfg.render_config_text(),
        "gh-sync.docs.remote widgets\ngh-sync.docs.url u\ngh-sync.docs.branch main\n"
    );
}

#[test]
fn load_missing_listing_is_empty() {
    let cfg = Config::load(false, "gh-sync.docs.remote widgets\n");
    assert_eq!(cfg.len(), 0);
}

#[test]
fn load_ignores_foreign_and_malformed_lines() {
    let text = "other.docs.remote nope\n\
                gh-sync.docs.remote widgets\n\
                no-separator-line\n\
                gh-sync.docs.color blue\n\
                gh-sync\n\
                gh-sync.docs.url u\n\
                gh-sync.docs.branch main\n";
    let cfg = Config::load(true, text);
    assert_eq!(cfg.len(), 1);
    assert_mapping(cfg.get("docs").expect("docs parsed"), "docs", "widgets", "u", "main");
}

#[test]
fn load_accepts_fields_in_any_order() {
    let text = "gh-sync.docs.branch main\ngh-sync.docs.url u\ngh-sync.docs.remote widgets\n";
    let cfg = Config::load(true, text);
    assert_mapping(cfg.get("docs").expect("docs parsed"), "docs", "widgets", "u", "main");
}

#[test]
fn load_strips_carriage_returns_before_line_feeds() {
    let text = "gh-sync.docs.remote widgets\r\ngh-sync.docs.url u\r\ngh-sync.docs.branch main\r\n";
    let cfg = Config::load(true, text);
    assert_mapping(cfg.get("docs").expect("docs parsed"), "docs", "widgets", "u", "main");
}

#[test]
fn load_defaults_missing_fields_to_empty() {
    let cfg = Config::load(true, "gh-sync.docs.remote widgets");
    assert_mapping(cfg.get("docs").expect("docs parsed"), "docs", "widgets", "", "");
}

#[test]
fn is_wf_detects_duplicate_names() {
    let mut cfg = Config::new();
    cfg.upsert(mapping("docs", "a", "u", "main"));
    assert!(cfg.is_wf());
    cfg.mappings.push(mapping("docs", "b", "v", "dev"));
    assert!(!cfg.is_wf());
}

#[test]
fn removal_commands_unset_each_field() {
    let cmds = removal_commands("docs");
    assert_eq!(cmds.len(), 3);
    assert_eq!(cmds[0], vec!["config", "--local", "--unset-all", "gh-sync.docs.remote"]);
    assert_eq!(cmds[1], vec!["config", "--local", "--unset-all", "gh-sync.docs.url"]);
    assert_eq!(cmds[2], vec!["config", "--local", "--unset-all", "gh-sync.docs.branch"]);
}

#[test]
fn removal_persists_and_spares_other_mappings() {
    let mut cfg = Config::new();
    cfg.upsert(mapping("docs", "widgets", "u", "main"));
    cfg.upsert(mapping("app", "b", "v", "dev"));

    // persist, reload as a fresh invocation, remove one mapping
    let mut cfg = Config::load(true, &cfg.render_config_text());
    assert!(cfg.remove("docs"));

    // the listing after the unset commands holds only the other mapping
    let reloaded = Config::load(true, &cfg.render_config_text());
    assert_eq!(reloaded.len(), 1);
    assert!(reloaded.get("docs").is_none());
    assert_mapping(reloaded.get("app").expect("app survives"), "app", "b", "v", "dev");
}
