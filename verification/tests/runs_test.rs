use inscope::entries::{ScopeConfig, ScopeError};
use inscope::paths::FileSet;
use inscope::runs::{
    add_entry_files, annotate_file, annotate_mode, annotate_summary, classify_entry,
    decimal_text, in_pass_gates, list, out_wins_gate, status, sync_in_file, sync_out_file,
    sync_summary, walk_step, write_step, EntryKind, FilePlan, Gate, Outcome, ReadOutcome, Step,
    Tally, WalkStep,
};
use std::collections::BTreeMap;

fn report(plan: FilePlan) -> (Option<String>, Outcome) {
    match plan {
        FilePlan::Done(Step { message, outcome }) => (message, outcome),
        FilePlan::Write(..) => panic!("expected a report"),
    }
}

fn write(plan: FilePlan) -> (String, String) {
    match plan {
        FilePlan::Write(content, message) => (content, message),
        FilePlan::Done(..) => panic!("expected a write"),
    }
}

fn text(s: &str) -> ReadOutcome {
    ReadOutcome::Text(s.to_string())
}

#[test]
fn out_wins_over_in_when_applying() {
    match out_wins_gate(true, true, "a.rs") {
        Gate::Skip(Step { message, outcome }) => {
            assert_eq!(message.as_deref(), Some("skip (out wins over in): a.rs"));
            assert_eq!(outcome, Outcome::Skipped);
        }
        Gate::Read => panic!("an OUT file must not be annotated"),
    }
    assert!(matches!(out_wins_gate(true, false, "a.rs"), Gate::Read));
    assert!(matches!(out_wins_gate(false, true, "a.rs"), Gate::Read));
}

#[test]
fn annotate_apply_writes_marker() {
    let (content, message) = write(annotate_file(true, false, "src/a.rs", &text("fn a() {}\n")));
    assert_eq!(content, "// @scope\nfn a() {}\n");
    assert_eq!(message, "annotated: src/a.rs");
}

#[test]
fn annotate_apply_reports() {
    assert_eq!(
        report(annotate_file(true, true, "src/a.rs", &text("fn a() {}\n"))),
        (Some("would annotate: src/a.rs".to_string()), Outcome::Changed)
    );
    assert_eq!(
        report(annotate_file(true, false, "src/a.rs", &text("// @scope\n"))),
        (Some("already annotated: src/a.rs".to_string()), Outcome::Unchanged)
    );
    assert_eq!(
        report(annotate_file(true, false, "a.json", &text("{}"))),
        (Some("skip (unsupported file type): a.json".to_string()), Outcome::Skipped)
    );
    assert_eq!(
        report(annotate_file(true, false, "a.bin", &ReadOutcome::NotText)),
        (Some("skip (non-text or system file): a.bin".to_string()), Outcome::Skipped)
    );
    assert_eq!(
        report(annotate_file(false, false, "a.rs", &ReadOutcome::Failed("denied".to_string()))),
        (Some("error reading a.rs: denied".to_string()), Outcome::Failed)
    );
}

#[test]
fn annotate_remove_reports_and_writes() {
    let (content, message) = write(annotate_file(false, false, "a.py", &text("# @scope\nx = 1\n")));
    assert_eq!(content, "x = 1\n");
    assert_eq!(message, "removed marker: a.py");
    assert_eq!(
        report(annotate_file(false, true, "a.py", &text("# @scope\nx = 1\n"))),
        (Some("would remove marker: a.py".to_string()), Outcome::Changed)
    );
    assert_eq!(
        report(annotate_file(false, false, "a.py", &text("x = 1\n"))),
        (Some("no scope marker: a.py".to_string()), Outcome::Unchanged)
    );
}

#[test]
fn sync_in_pass() {
    let (content, message) = write(sync_in_file(false, "run.sh", &text("#!/bin/sh\necho\n")));
    assert_eq!(content, "#!/bin/sh\n# @scope\necho\n");
    assert_eq!(message, "synced +annotated: run.sh");
    assert_eq!(
        report(sync_in_file(true, "run.sh", &text("#!/bin/sh\necho\n"))),
        (Some("would sync +annotate: run.sh".to_string()), Outcome::Changed)
    );
    assert_eq!(
        report(sync_in_file(false, "run.sh", &text("#!/bin/sh\n# @scope\n"))),
        (None, Outcome::Unchanged)
    );
    assert_eq!(
        report(sync_in_file(false, "x.json", &text("{}"))),
        (Some("skip (unsupported file type): x.json".to_string()), Outcome::Skipped)
    );
}

#[test]
fn sync_out_pass() {
    let (content, message) = write(sync_out_file(false, "a.md", &text("<!-- @scope -->\n# T\n")));
    assert_eq!(content, "# T\n");
    assert_eq!(message, "synced -removed marker: a.md");
    assert_eq!(
        report(sync_out_file(true, "a.md", &text("<!-- @scope -->\n# T\n"))),
        (Some("would sync -remove marker: a.md".to_string()), Outcome::Changed)
    );
    assert_eq!(report(sync_out_file(false, "a.md", &text("# T\n"))), (None, Outcome::Unchanged));
    assert_eq!(
        report(sync_out_file(false, "a.md", &ReadOutcome::NotText)),
        (Some("skip (non-text or system file): a.md".to_string()), Outcome::Skipped)
    );
}

#[test]
fn write_results() {
    let ok = write_step("a.rs", "annotated: a.rs".to_string(), None);
    assert_eq!(ok.message.as_deref(), Some("annotated: a.rs"));
    assert_eq!(ok.outcome, Outcome::Changed);
    let bad = write_step("a.rs", "annotated: a.rs".to_string(), Some("read-only".to_string()));
    assert_eq!(bad.message.as_deref(), Some("error writing a.rs: read-only"));
    assert_eq!(bad.outcome, Outcome::Failed);
}

#[test]
fn tally_and_summaries() {
    let mut t = Tally::new(2);
    t.record(Outcome::Changed);
    t.record(Outcome::Changed);
    t.record(Outcome::Skipped);
    t.record(Outcome::Unchanged);
    assert_eq!((t.changed, t.skipped, t.errors), (2, 3, 0));
    assert_eq!(
        annotate_summary(true, &t),
        ("annotate dry-run done: would_change=2, skipped=3, errors=0".to_string(), None)
    );
    assert_eq!(
        sync_summary(false, &t),
        ("sync done: changed=2, skipped=3, errors=0".to_string(), None)
    );
    t.record(Outcome::Failed);
    assert_eq!(
        annotate_summary(false, &t),
        ("annotate done: changed=2, skipped=3, errors=1".to_string(), Some(ScopeError::AnnotateFailed))
    );
    assert_eq!(
        sync_summary(true, &t),
        ("sync dry-run done: would_change=2, skipped=3, errors=1".to_string(), Some(ScopeError::SyncFailed))
    );
}

#[test]
fn decimal_numbers() {
    for n in [0usize, 7, 10, 120, 4096, usize::MAX] {
        assert_eq!(decimal_text(n), n.to_string());
    }
}

#[test]
fn annotate_needs_exactly_one_mode() {
    assert_eq!(annotate_mode(true, false), Ok(true));
    assert_eq!(annotate_mode(false, true), Ok(false));
    assert_eq!(annotate_mode(false, false), Err(ScopeError::AnnotateNoMode));
    assert_eq!(annotate_mode(true, true), Err(ScopeError::AnnotateBothModes));
}

#[test]
fn entries_are_classified() {
    assert!(matches!(classify_entry("src/**/*.rs", true), EntryKind::Glob));
    match classify_entry("node_modules", true) {
        EntryKind::Skip(m) => assert_eq!(m, "skip (ignored directory): node_modules"),
        _ => panic!("expected a skip"),
    }
    assert!(matches!(classify_entry("node_modules", false), EntryKind::Walk));
    assert!(matches!(classify_entry("src", true), EntryKind::Walk));
}

#[test]
fn found_files_join_the_set() {
    let mut files = FileSet::new();
    let found = vec!["/w/p/src/b.rs".to_string(), "/w/p/src/a.rs".to_string()];
    assert_eq!(add_entry_files(&mut files, "src", &found, false, Some("/w/p")), None);
    assert_eq!(files.to_vec(), vec!["src/a.rs", "src/b.rs"]);
    let globbed = vec!["src/a.rs".to_string(), "lib/c.rs".to_string()];
    assert_eq!(add_entry_files(&mut files, "**/*.rs", &globbed, true, Some("/w/p")), None);
    assert_eq!(files.to_vec(), vec!["lib/c.rs", "src/a.rs", "src/b.rs"]);
    assert_eq!(
        add_entry_files(&mut files, "x/*.md", &Vec::new(), true, None),
        Some("skip (glob matched no files): x/*.md".to_string())
    );
    assert_eq!(
        add_entry_files(&mut files, "gone", &Vec::new(), false, None),
        Some("skip (not found / no files): gone".to_string())
    );
    assert_eq!(files.len(), 3);
}

#[test]
fn status_counts() {
    let mut files = BTreeMap::new();
    files.insert("a".to_string(), "in".to_string());
    let c = ScopeConfig {
        version: 1,
        in_entries: vec!["a".to_string(), "b".to_string()],
        out_entries: vec![],
        files,
    };
    let s = status(&c);
    assert_eq!((s.version, s.in_count, s.out_count, s.file_overrides, s.has_in_entries), (1, 2, 0, 1, true));
    let empty = ScopeConfig { version: 1, in_entries: vec![], out_entries: vec![], files: BTreeMap::new() };
    assert!(!status(&empty).has_in_entries);
}

#[test]
fn list_reports_conflicts_and_overrides() {
    let c = ScopeConfig {
        version: 1,
        in_entries: vec!["contracts/".to_string(), "lib".to_string()],
        out_entries: vec!["contracts/Bad.sol".to_string(), "lib/".to_string()],
        files: BTreeMap::new(),
    };
    let r = list(&c, &[false, true]);
    assert_eq!(r.conflicts, vec!["lib".to_string()]);
    assert_eq!(r.overrides, vec!["OUT contracts/Bad.sol overrides IN contracts/".to_string()]);
}

#[test]
fn in_pass_skips_every_file_that_is_also_out() {
    let mut ins = FileSet::new();
    ins.insert("a.rs".to_string());
    ins.insert("b.rs".to_string());
    ins.insert("c/d.rs".to_string());
    let mut outs = FileSet::new();
    outs.insert("c//d.rs".to_string());
    outs.insert("a.rs".to_string());
    let gates = in_pass_gates(true, &ins, &outs);
    assert_eq!(gates.len(), 3);
    let skipped: Vec<bool> = gates.iter().map(|g| matches!(g, Gate::Skip(_))).collect();
    assert_eq!(skipped, vec![true, false, true]);
    match &gates[2] {
        Gate::Skip(step) => assert_eq!(step.message.as_deref(), Some("skip (out wins over in): c/d.rs")),
        Gate::Read => panic!("expected a skip"),
    }
    assert!(in_pass_gates(false, &ins, &outs).iter().all(|g| matches!(g, Gate::Read)));
}

#[test]
fn walk_steps() {
    assert!(matches!(walk_step(true, true, false, "a"), WalkStep::Skip));
    assert!(matches!(walk_step(false, true, false, "a.rs"), WalkStep::File));
    assert!(matches!(walk_step(false, false, true, "src"), WalkStep::Descend));
    assert!(matches!(walk_step(false, false, true, "src/target"), WalkStep::Skip));
    assert!(matches!(walk_step(false, false, false, "fifo"), WalkStep::Skip));
}

#[test]
fn dry_sync_reports_what_a_real_sync_writes() {
    let cases = [("a.rs", "fn a() {}\n"), ("b.rs", "// @scope\n"), ("c.json", "{}")];
    for (file, content) in cases {
        let read = text(content);
        let dry = report(sync_in_file(true, file, &read));
        match sync_in_file(false, file, &read) {
            FilePlan::Write(..) => assert_eq!(dry.1, Outcome::Changed),
            FilePlan::Done(step) => assert_eq!(dry, (step.message, step.outcome)),
        }
    }
}

#[test]
fn second_sync_writes_nothing() {
    let (content, _) = write(sync_in_file(false, "run.sh", &text("#!/bin/sh\necho\n")));
    assert_eq!(report(sync_in_file(false, "run.sh", &text(&content))), (None, Outcome::Unchanged));
    let (content, _) = write(sync_out_file(false, "a.md", &text("<!-- @scope -->\n# T\n")));
    assert_eq!(report(sync_out_file(false, "a.md", &text(&content))), (None, Outcome::Unchanged));
}
