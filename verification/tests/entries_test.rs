use inscope::entries::{
    add_scope_entry, entry_list, entry_list_mut, find_exact_conflicts, find_overrides,
    handle_scope_action, init, is_directory_entry, looks_like_glob, normalize_entry,
    remove_scope_entry, require_scopeconfig, scopeconfig_path, sort_entries, target_label,
    ScopeAction, ScopeActionArgs, ScopeConfig, ScopeError, ScopeTarget,
};
use std::collections::BTreeMap;

fn config(ins: &[&str], outs: &[&str]) -> ScopeConfig {
    ScopeConfig {
        version: 1,
        in_entries: ins.iter().map(|s| s.to_string()).collect(),
        out_entries: outs.iter().map(|s| s.to_string()).collect(),
        files: BTreeMap::new(),
    }
}

#[test]
fn normalize_entry_trims_and_drops_trailing_slashes() {
    assert_eq!(normalize_entry("  contracts/dex/  "), "contracts/dex");
    assert_eq!(normalize_entry("src//"), "src");
    assert_eq!(normalize_entry("/"), "/");
    assert_eq!(normalize_entry(" / "), "/");
    assert_eq!(normalize_entry("///"), "///");
    assert_eq!(normalize_entry("\tsrc/lib.rs\n"), "src/lib.rs");
    assert_eq!(normalize_entry("   "), "");
}

#[test]
fn normalize_entry_keeps_inner_whitespace() {
    assert_eq!(normalize_entry("a b /"), "a b ");
}

#[test]
fn looks_like_glob_detects_pattern_characters() {
    assert!(looks_like_glob("contracts/**/*.sol"));
    assert!(looks_like_glob("a?.rs"));
    assert!(looks_like_glob("[ab].rs"));
    assert!(looks_like_glob("{a,b}.rs"));
    assert!(!looks_like_glob("contracts/dex/Bad.sol"));
}

#[test]
fn labels_and_manifest_name() {
    assert_eq!(target_label(ScopeTarget::In), "in");
    assert_eq!(target_label(ScopeTarget::Out), "out");
    assert_eq!(scopeconfig_path(), "audit-scope.yml");
}

#[test]
fn require_scopeconfig_needs_the_manifest() {
    assert_eq!(require_scopeconfig(true), Ok("audit-scope.yml"));
    assert_eq!(require_scopeconfig(false), Err(ScopeError::ConfigMissing));
    assert_eq!(
        ScopeError::ConfigMissing.message(),
        "audit-scope.yml not found. Run `inscope init` first."
    );
}

#[test]
fn init_writes_a_fresh_manifest_once() {
    assert_eq!(
        init(false),
        Ok("version: 1\ninclude: []\nexclude: []\nfiles: {}\n")
    );
    assert_eq!(init(true), Err(ScopeError::ConfigExists));
    assert_eq!(ScopeError::ConfigExists.message(), "audit-scope.yml already exists");
}

#[test]
fn error_messages() {
    assert_eq!(ScopeError::EmptyPath.message(), "path cannot be empty");
    assert_eq!(
        ScopeError::NoScopeAction.message(),
        "choose one of: --add <PATH>, --remove <PATH>, --list"
    );
    assert_eq!(ScopeError::AnnotateNoMode.message(), "choose one: --apply or --remove");
    assert_eq!(
        ScopeError::AnnotateBothModes.message(),
        "use only one flag: --apply or --remove"
    );
    assert_eq!(ScopeError::AnnotateFailed.message(), "annotate finished with errors");
    assert_eq!(ScopeError::SyncFailed.message(), "sync finished with errors");
}

#[test]
fn handle_scope_action_prefers_add_then_remove_then_list() {
    let both = ScopeActionArgs {
        add: Some("a".to_string()),
        remove: Some("b".to_string()),
        list: true,
    };
    match handle_scope_action(ScopeTarget::Out, both) {
        ScopeAction::Add(ScopeTarget::Out, p) => assert_eq!(p, "a"),
        _ => panic!("expected add"),
    }
    let remove = ScopeActionArgs { add: None, remove: Some("b".to_string()), list: true };
    match handle_scope_action(ScopeTarget::In, remove) {
        ScopeAction::Remove(ScopeTarget::In, p) => assert_eq!(p, "b"),
        _ => panic!("expected remove"),
    }
    let list = ScopeActionArgs { add: None, remove: None, list: true };
    assert!(matches!(handle_scope_action(ScopeTarget::In, list), ScopeAction::List(ScopeTarget::In)));
    let none = ScopeActionArgs { add: None, remove: None, list: false };
    assert!(matches!(
        handle_scope_action(ScopeTarget::In, none),
        ScopeAction::Invalid(ScopeError::NoScopeAction)
    ));
}

#[test]
fn entry_lists_by_target() {
    let mut c = config(&["a"], &["b"]);
    assert_eq!(entry_list(&c, ScopeTarget::In), &vec!["a".to_string()]);
    assert_eq!(entry_list(&c, ScopeTarget::Out), &vec!["b".to_string()]);
    entry_list_mut(&mut c, ScopeTarget::Out).push("c".to_string());
    assert_eq!(c.out_entries, vec!["b".to_string(), "c".to_string()]);
    assert_eq!(c.in_entries, vec!["a".to_string()]);
}

#[test]
fn add_scope_entry_trims_sorts_and_skips_duplicates() {
    let mut c = config(&["zeta", "alpha"], &[]);
    assert_eq!(add_scope_entry(&mut c, ScopeTarget::In, "  contracts/dex/ "), Ok(true));
    assert_eq!(c.in_entries, vec!["alpha", "contracts/dex/", "zeta"]);
    assert_eq!(add_scope_entry(&mut c, ScopeTarget::In, "contracts/dex"), Ok(false));
    assert_eq!(c.in_entries, vec!["alpha", "contracts/dex/", "zeta"]);
    assert_eq!(add_scope_entry(&mut c, ScopeTarget::In, "   "), Err(ScopeError::EmptyPath));
    assert!(c.out_entries.is_empty());
}

#[test]
fn add_scope_entry_to_out_list_leaves_in_list() {
    let mut c = config(&["b"], &["y"]);
    assert_eq!(add_scope_entry(&mut c, ScopeTarget::Out, "x"), Ok(true));
    assert_eq!(c.out_entries, vec!["x", "y"]);
    assert_eq!(c.in_entries, vec!["b"]);
}

#[test]
fn add_then_add_again_is_unchanged() {
    let mut c = config(&[], &[]);
    assert_eq!(add_scope_entry(&mut c, ScopeTarget::In, "src"), Ok(true));
    assert_eq!(add_scope_entry(&mut c, ScopeTarget::In, "src/"), Ok(false));
    assert_eq!(c.in_entries, vec!["src"]);
}

#[test]
fn remove_scope_entry_drops_every_matching_entry() {
    let mut c = config(&["src/", "lib", "src"], &[]);
    assert_eq!(remove_scope_entry(&mut c, ScopeTarget::In, " src "), Ok(true));
    assert_eq!(c.in_entries, vec!["lib"]);
    assert_eq!(remove_scope_entry(&mut c, ScopeTarget::In, "src"), Ok(false));
    assert_eq!(remove_scope_entry(&mut c, ScopeTarget::In, ""), Err(ScopeError::EmptyPath));
}

#[test]
fn add_then_remove_takes_the_entry_out() {
    let mut c = config(&["a"], &[]);
    assert_eq!(add_scope_entry(&mut c, ScopeTarget::In, "b/"), Ok(true));
    assert_eq!(remove_scope_entry(&mut c, ScopeTarget::In, "b"), Ok(true));
    assert_eq!(c.in_entries, vec!["a"]);
}

#[test]
fn sort_entries_orders_like_string() {
    let mut v: Vec<String> = vec!["b", "B", "a", "ab", "a", "é"].into_iter().map(String::from).collect();
    sort_entries(&mut v);
    let mut expected: Vec<String> = vec!["b", "B", "a", "ab", "a", "é"].into_iter().map(String::from).collect();
    expected.sort();
    assert_eq!(v, expected);
}

#[test]
fn exact_conflicts_compare_normalized_entries() {
    let ins: Vec<String> = vec!["src/".into(), "lib".into(), "b".into()];
    let outs: Vec<String> = vec!["src".into(), "x".into(), " b ".into(), "b".into()];
    assert_eq!(find_exact_conflicts(&ins, &outs), vec!["b".to_string(), "src".to_string()]);
    assert!(find_exact_conflicts(&ins, &[]).is_empty());
}

#[test]
fn overrides_report_out_entries_inside_in_directories() {
    let ins: Vec<String> = vec!["contracts/".into(), "contracts/**/*.sol".into(), "docs".into()];
    let outs: Vec<String> = vec![
        "contracts/protocols/dex/Bad.sol".into(),
        "docs/a.md".into(),
        "contracts".into(),
        "*.md".into(),
    ];
    let dirs = vec![false, false, true];
    let notes = find_overrides(&ins, &outs, &dirs);
    assert_eq!(
        notes,
        vec![
            "OUT contracts/protocols/dex/Bad.sol overrides IN contracts/".to_string(),
            "OUT docs/a.md overrides IN docs".to_string(),
        ]
    );
}

#[test]
fn overrides_need_a_directory_and_whole_components() {
    let ins: Vec<String> = vec!["src".into(), "con".into()];
    let outs: Vec<String> = vec!["src/a.rs".into(), "contracts/x".into()];
    assert!(find_overrides(&ins, &outs, &[false, true]).is_empty());
    assert_eq!(
        find_overrides(&ins, &outs, &[true, true]),
        vec!["OUT src/a.rs overrides IN src".to_string()]
    );
}

#[test]
fn directory_entries() {
    assert!(is_directory_entry("src/", false));
    assert!(is_directory_entry("src", true));
    assert!(!is_directory_entry("src", false));
}

#[test]
fn remove_after_add_restores_a_sorted_list() {
    let mut c = config(&["alpha", "beta", "zeta"], &["x"]);
    assert_eq!(add_scope_entry(&mut c, ScopeTarget::In, " gamma/ "), Ok(true));
    assert_eq!(c.in_entries, vec!["alpha", "beta", "gamma/", "zeta"]);
    assert_eq!(remove_scope_entry(&mut c, ScopeTarget::In, " gamma/ "), Ok(true));
    assert_eq!(c.in_entries, vec!["alpha", "beta", "zeta"]);
    assert_eq!(c.out_entries, vec!["x"]);
    assert_eq!(c.version, 1);
}
