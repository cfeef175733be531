//! The decisions of `annotate`, `sync`, `list`, `status` and of collecting
//! the files that the entries name. Reading and writing files is left to the
//! caller: each step takes what the disk gave and says what to write and what
//! to report.
use vstd::prelude::*;
use crate::entries::{
    chars_strictly_sorted, find_exact_conflicts, find_overrides, is_conflict, is_override_note,
    looks_like_glob, spec_looks_like_glob, ScopeConfig, ScopeError,
};
use crate::markers::{
    apply_scope_marker, lemma_apply_marks, lemma_remove_unmarked, lemma_file_markers_are_one_line, marker_for_file,
    remove_scope_marker, spec_apply_scope_marker, spec_has_scope_marker, spec_marker_for_file,
    spec_remove_scope_marker,
};
use crate::paths::{
    contains_path, is_ignored_path, path_eq, path_sorted, relativize_to_cwd, spec_is_ignored_path,
    spec_relativize, FileSet,
};
use crate::text::{first_index, lemma_first_index_bound, starts_with, strs};

verus! {

broadcast use vstd::string::group_string_axioms;

/// What reading a file gave: its text, no text (a system file, or bytes that
/// are not UTF-8), or an error with its message.
pub enum ReadOutcome {
    Text(String),
    NotText,
    Failed(String),
}

/// The mathematical value of a read.
pub enum ReadView {
    Text(Seq<char>),
    NotText,
    Failed(Seq<char>),
}

pub open spec fn read_view(r: ReadOutcome) -> ReadView {
    match r {
        ReadOutcome::Text(s) => ReadView::Text(s@),
        ReadOutcome::NotText => ReadView::NotText,
        ReadOutcome::Failed(e) => ReadView::Failed(e@),
    }
}

/// How a file counts in the totals of a pass.
#[derive(Clone, Copy, PartialEq, Eq, Debug)]
pub enum Outcome {
    Changed,
    Skipped,
    Failed,
    Unchanged,
}

/// What a file step reports: a message (or none) and how the file counts.
pub struct Step {
    pub message: Option<String>,
    pub outcome: Outcome,
}

/// What to do with a file: report and go on, or write the new text and then
/// report the message when the write succeeds.
pub enum FilePlan {
    Done(Step),
    Write(String, String),
}

/// The mathematical value of a plan.
pub enum PlanView {
    Done(Option<Seq<char>>, Outcome),
    Write(Seq<char>, Seq<char>),
}

pub open spec fn opt_view(m: Option<String>) -> Option<Seq<char>> {
    match m {
        Some(s) => Some(s@),
        None => None,
    }
}

pub open spec fn step_view(s: Step) -> PlanView {
    PlanView::Done(opt_view(s.message), s.outcome)
}

pub open spec fn plan_view(p: FilePlan) -> PlanView {
    match p {
        FilePlan::Done(s) => step_view(s),
        FilePlan::Write(c, m) => PlanView::Write(c@, m@),
    }
}

/// A report with a message.
pub open spec fn said(m: Seq<char>, o: Outcome) -> PlanView {
    PlanView::Done(Some(m), o)
}

/// Whether to read a file before deciding on it, or skip it at once.
pub enum Gate {
    Skip(Step),
    Read,
}

pub open spec fn gate_view(g: Gate) -> Option<PlanView> {
    match g {
        Gate::Skip(s) => Some(step_view(s)),
        Gate::Read => None,
    }
}

/// The message `prefix` followed by `f`.
pub fn text_with(prefix: &str, f: &str) -> (r: String)
    ensures
        r@ == prefix@ + f@,
{
    let mut s = prefix.to_owned();
    s.append(f);
    s
}

/// The message `error <what> <f>: <e>`.
fn error_text(prefix: &str, f: &str, e: &str) -> (r: String)
    ensures
        r@ == prefix@ + f@ + ": "@ + e@,
{
    let mut s = prefix.to_owned();
    s.append(f);
    s.append(": ");
    s.append(e);
    s
}

fn done(message: String, outcome: Outcome) -> (r: FilePlan)
    ensures
        plan_view(r) == said(message@, outcome),
{
    FilePlan::Done(Step { message: Some(message), outcome })
}

/// A file that is both IN and OUT is skipped when markers are being applied:
/// OUT wins over IN.
pub open spec fn spec_out_wins_gate(applying: bool, excluded: bool, file: Seq<char>) -> Option<PlanView> {
    if applying && excluded {
        Some(said("skip (out wins over in): "@ + file, Outcome::Skipped))
    } else {
        None
    }
}

/// Whether to read an IN file: when markers are being applied (`applying`)
/// and the file is also OUT (`excluded`), it is skipped without reading.
pub fn out_wins_gate(applying: bool, excluded: bool, file: &str) -> (r: Gate)
    ensures
        gate_view(r) == spec_out_wins_gate(applying, excluded, file@),
{
    if applying && excluded {
        Gate::Skip(
            Step {
                message: Some(text_with("skip (out wins over in): ", file)),
                outcome: Outcome::Skipped,
            },
        )
    } else {
        Gate::Read
    }
}

/// The plan for a file after reading it: skip a file without text, count a
/// read error, or go on with its text.
pub open spec fn read_plan(file: Seq<char>, read: ReadView, then: spec_fn(Seq<char>) -> PlanView) -> PlanView {
    match read {
        ReadView::NotText => said("skip (non-text or system file): "@ + file, Outcome::Skipped),
        ReadView::Failed(e) => said("error reading "@ + file + ": "@ + e, Outcome::Failed),
        ReadView::Text(c) => then(c),
    }
}

/// What `annotate` does with one IN file once read.
pub open spec fn spec_annotate_file(apply: bool, dry_run: bool, file: Seq<char>, read: ReadView) -> PlanView {
    read_plan(
        file,
        read,
        |c: Seq<char>|
            if apply {
                match spec_marker_for_file(file, c) {
                    None => said("skip (unsupported file type): "@ + file, Outcome::Skipped),
                    Some(m) => {
                        let (updated, changed) = spec_apply_scope_marker(c, m);
                        if !changed {
                            said("already annotated: "@ + file, Outcome::Unchanged)
                        } else if dry_run {
                            said("would annotate: "@ + file, Outcome::Changed)
                        } else {
                            PlanView::Write(updated, "annotated: "@ + file)
                        }
                    },
                }
            } else {
                let (updated, changed) = spec_remove_scope_marker(c);
                if !changed {
                    said("no scope marker: "@ + file, Outcome::Unchanged)
                } else if dry_run {
                    said("would remove marker: "@ + file, Outcome::Changed)
                } else {
                    PlanView::Write(updated, "removed marker: "@ + file)
                }
            },
    )
}

/// What `annotate` does with one IN file: apply (`apply`) or remove the
/// marker, only report under `dry_run`, and skip files without text or
/// without a known comment style.
pub fn annotate_file(apply: bool, dry_run: bool, file: &str, read: &ReadOutcome) -> (r: FilePlan)
    ensures
        plan_view(r) == spec_annotate_file(apply, dry_run, file@, read_view(*read)),
        dry_run ==> r is Done,
{
    let original = match read {
        ReadOutcome::NotText => {
            return done(text_with("skip (non-text or system file): ", file), Outcome::Skipped);
        },
        ReadOutcome::Failed(e) => {
            return done(error_text("error reading ", file, e.as_str()), Outcome::Failed);
        },
        ReadOutcome::Text(c) => c,
    };
    if apply {
        let marker = match marker_for_file(file, original.as_str()) {
            Some(m) => m,
            None => {
                return done(text_with("skip (unsupported file type): ", file), Outcome::Skipped);
            },
        };
        let (updated, changed) = apply_scope_marker(original.as_str(), marker);
        if !changed {
            return done(text_with("already annotated: ", file), Outcome::Unchanged);
        }
        if dry_run {
            return done(text_with("would annotate: ", file), Outcome::Changed);
        }
        FilePlan::Write(updated, text_with("annotated: ", file))
    } else {
        let (updated, changed) = remove_scope_marker(original.as_str());
        if !changed {
            return done(text_with("no scope marker: ", file), Outcome::Unchanged);
        }
        if dry_run {
            return done(text_with("would remove marker: ", file), Outcome::Changed);
        }
        FilePlan::Write(updated, text_with("removed marker: ", file))
    }
}

/// What the IN pass of `sync` does with one IN file once read.
pub open spec fn spec_sync_in_file(dry_run: bool, file: Seq<char>, read: ReadView) -> PlanView {
    read_plan(
        file,
        read,
        |c: Seq<char>|
            match spec_marker_for_file(file, c) {
                None => said("skip (unsupported file type): "@ + file, Outcome::Skipped),
                Some(m) => {
                    let (updated, changed) = spec_apply_scope_marker(c, m);
                    if !changed {
                        PlanView::Done(None, Outcome::Unchanged)
                    } else if dry_run {
                        said("would sync +annotate: "@ + file, Outcome::Changed)
                    } else {
                        PlanView::Write(updated, "synced +annotated: "@ + file)
                    }
                },
            },
    )
}

/// What the IN pass of `sync` does with one IN file: add its marker.
pub fn sync_in_file(dry_run: bool, file: &str, read: &ReadOutcome) -> (r: FilePlan)
    ensures
        plan_view(r) == spec_sync_in_file(dry_run, file@, read_view(*read)),
        dry_run ==> r is Done,
{
    let original = match read {
        ReadOutcome::NotText => {
            return done(text_with("skip (non-text or system file): ", file), Outcome::Skipped);
        },
        ReadOutcome::Failed(e) => {
            return done(error_text("error reading ", file, e.as_str()), Outcome::Failed);
        },
        ReadOutcome::Text(c) => c,
    };
    let marker = match marker_for_file(file, original.as_str()) {
        Some(m) => m,
        None => {
            return done(text_with("skip (unsupported file type): ", file), Outcome::Skipped);
        },
    };
    let (updated, changed) = apply_scope_marker(original.as_str(), marker);
    if !changed {
        return FilePlan::Done(Step { message: None, outcome: Outcome::Unchanged });
    }
    if dry_run {
        return done(text_with("would sync +annotate: ", file), Outcome::Changed);
    }
    FilePlan::Write(updated, text_with("synced +annotated: ", file))
}

/// What the OUT pass of `sync` does with one OUT file once read.
pub open spec fn spec_sync_out_file(dry_run: bool, file: Seq<char>, read: ReadView) -> PlanView {
    read_plan(
        file,
        read,
        |c: Seq<char>|
            {
                let (updated, changed) = spec_remove_scope_marker(c);
                if !changed {
                    PlanView::Done(None, Outcome::Unchanged)
                } else if dry_run {
                    said("would sync -remove marker: "@ + file, Outcome::Changed)
                } else {
                    PlanView::Write(updated, "synced -removed marker: "@ + file)
                }
            },
    )
}

/// What the OUT pass of `sync` does with one OUT file: remove its marker.
pub fn sync_out_file(dry_run: bool, file: &str, read: &ReadOutcome) -> (r: FilePlan)
    ensures
        plan_view(r) == spec_sync_out_file(dry_run, file@, read_view(*read)),
        dry_run ==> r is Done,
{
    let original = match read {
        ReadOutcome::NotText => {
            return done(text_with("skip (non-text or system file): ", file), Outcome::Skipped);
        },
        ReadOutcome::Failed(e) => {
            return done(error_text("error reading ", file, e.as_str()), Outcome::Failed);
        },
        ReadOutcome::Text(c) => c,
    };
    let (updated, changed) = remove_scope_marker(original.as_str());
    if !changed {
        return FilePlan::Done(Step { message: None, outcome: Outcome::Unchanged });
    }
    if dry_run {
        return done(text_with("would sync -remove marker: ", file), Outcome::Changed);
    }
    FilePlan::Write(updated, text_with("synced -removed marker: ", file))
}

/// The report after writing a file: the planned message when the write
/// succeeded, the error otherwise.
pub fn write_step(file: &str, done_message: String, error: Option<String>) -> (r: Step)
    ensures
        error is None ==> step_view(r) == said(done_message@, Outcome::Changed),
        error matches Some(e) ==> step_view(r) == said(
            "error writing "@ + file@ + ": "@ + e@,
            Outcome::Failed,
        ),
{
    match error {
        None => Step { message: Some(done_message), outcome: Outcome::Changed },
        Some(e) => Step {
            message: Some(error_text("error writing ", file, e.as_str())),
            outcome: Outcome::Failed,
        },
    }
}

/// The totals of a pass.
pub struct Tally {
    pub changed: usize,
    pub skipped: usize,
    pub errors: usize,
}

impl Tally {
    /// Totals that start from `skipped` files already skipped.
    pub fn new(skipped: usize) -> (r: Tally)
        ensures
            r.changed == 0,
            r.skipped == skipped,
            r.errors == 0,
    {
        Tally { changed: 0, skipped, errors: 0 }
    }

    /// Whether one more file of outcome `o` can be counted without overflow.
    pub open spec fn has_room(&self, o: Outcome) -> bool {
        &&& o == Outcome::Changed ==> self.changed < usize::MAX
        &&& o == Outcome::Skipped ==> self.skipped < usize::MAX
        &&& o == Outcome::Failed ==> self.errors < usize::MAX
    }

    /// Counts one file of outcome `o`.
    pub fn record(&mut self, o: Outcome)
        requires
            old(self).has_room(o),
        ensures
            final(self).changed == old(self).changed + if o == Outcome::Changed {
                1int
            } else {
                0
            },
            final(self).skipped == old(self).skipped + if o == Outcome::Skipped {
                1int
            } else {
                0
            },
            final(self).errors == old(self).errors + if o == Outcome::Failed {
                1int
            } else {
                0
            },
    {
        match o {
            Outcome::Changed => self.changed = self.changed + 1,
            Outcome::Skipped => self.skipped = self.skipped + 1,
            Outcome::Failed => self.errors = self.errors + 1,
            Outcome::Unchanged => {},
        }
    }
}

/// The decimal digit of `d < 10`.
pub open spec fn digit(d: nat) -> char {
    if d == 0 {
        '0'
    } else if d == 1 {
        '1'
    } else if d == 2 {
        '2'
    } else if d == 3 {
        '3'
    } else if d == 4 {
        '4'
    } else if d == 5 {
        '5'
    } else if d == 6 {
        '6'
    } else if d == 7 {
        '7'
    } else if d == 8 {
        '8'
    } else {
        '9'
    }
}

/// The decimal text of `n` (`usize::to_string`).
pub open spec fn decimal(n: nat) -> Seq<char>
    decreases n,
{
    if n < 10 {
        seq![digit(n)]
    } else {
        decimal(n / 10).push(digit(n % 10))
    }
}

fn digit_char(d: usize) -> (r: char)
    requires
        d < 10,
    ensures
        r == digit(d as nat),
{
    if d == 0 {
        '0'
    } else if d == 1 {
        '1'
    } else if d == 2 {
        '2'
    } else if d == 3 {
        '3'
    } else if d == 4 {
        '4'
    } else if d == 5 {
        '5'
    } else if d == 6 {
        '6'
    } else if d == 7 {
        '7'
    } else if d == 8 {
        '8'
    } else {
        '9'
    }
}

/// The decimal text of `n`.
pub fn decimal_text(n: usize) -> (r: String)
    ensures
        r@ == decimal(n as nat),
    decreases n,
{
    if n < 10 {
        let mut s = String::new();
        s.push(digit_char(n));
        assert(s@ =~= seq![digit(n as nat)]);
        s
    } else {
        let mut s = decimal_text(n / 10);
        s.push(digit_char(n % 10));
        s
    }
}

/// The counts line of a pass summary.
pub open spec fn counts_line(first: Seq<char>, t: Tally) -> Seq<char> {
    first + decimal(t.changed as nat) + ", skipped="@ + decimal(t.skipped as nat) + ", errors="@
        + decimal(t.errors as nat)
}

fn counts_text(first: &str, t: &Tally) -> (r: String)
    ensures
        r@ == counts_line(first@, *t),
{
    let mut s = first.to_owned();
    s.append(decimal_text(t.changed).as_str());
    s.append(", skipped=");
    s.append(decimal_text(t.skipped).as_str());
    s.append(", errors=");
    s.append(decimal_text(t.errors).as_str());
    s
}

/// Whether `annotate` applies markers (`Ok(true)`) or removes them (`Ok(false)`);
/// exactly one of the two flags must be given.
pub fn annotate_mode(apply: bool, remove: bool) -> (r: Result<bool, ScopeError>)
    ensures
        apply && !remove ==> r == Ok::<bool, ScopeError>(true),
        !apply && remove ==> r == Ok::<bool, ScopeError>(false),
        !apply && !remove ==> r == Err::<bool, ScopeError>(ScopeError::AnnotateNoMode),
        apply && remove ==> r == Err::<bool, ScopeError>(ScopeError::AnnotateBothModes),
{
    if apply && !remove {
        Ok(true)
    } else if !apply && remove {
        Ok(false)
    } else if !apply {
        Err(ScopeError::AnnotateNoMode)
    } else {
        Err(ScopeError::AnnotateBothModes)
    }
}

/// The summary line of `annotate`, and the error when some file failed.
pub fn annotate_summary(dry_run: bool, t: &Tally) -> (r: (String, Option<ScopeError>))
    ensures
        dry_run ==> r.0@ == counts_line("annotate dry-run done: would_change="@, *t),
        !dry_run ==> r.0@ == counts_line("annotate done: changed="@, *t),
        r.1 == if t.errors > 0 {
            Some(ScopeError::AnnotateFailed)
        } else {
            None::<ScopeError>
        },
{
    let line = if dry_run {
        counts_text("annotate dry-run done: would_change=", t)
    } else {
        counts_text("annotate done: changed=", t)
    };
    let failed = if t.errors > 0 {
        Some(ScopeError::AnnotateFailed)
    } else {
        None
    };
    (line, failed)
}

/// The summary line of `sync`, and the error when some file failed.
pub fn sync_summary(dry_run: bool, t: &Tally) -> (r: (String, Option<ScopeError>))
    ensures
        dry_run ==> r.0@ == counts_line("sync dry-run done: would_change="@, *t),
        !dry_run ==> r.0@ == counts_line("sync done: changed="@, *t),
        r.1 == if t.errors > 0 {
            Some(ScopeError::SyncFailed)
        } else {
            None::<ScopeError>
        },
{
    let line = if dry_run {
        counts_text("sync dry-run done: would_change=", t)
    } else {
        counts_text("sync done: changed=", t)
    };
    let failed = if t.errors > 0 {
        Some(ScopeError::SyncFailed)
    } else {
        None
    };
    (line, failed)
}


/// How the files of an entry are found.
pub enum EntryKind {
    /// Expand the entry as a glob pattern.
    Glob,
    /// Skip the entry with this message: it is an ignored directory.
    Skip(String),
    /// Take the file, or the files under the directory, that the entry names.
    Walk,
}

/// How the files of `entry` are found; `on_disk_dir` tells whether its path is
/// a directory on disk.
pub fn classify_entry(entry: &str, on_disk_dir: bool) -> (r: EntryKind)
    ensures
        spec_looks_like_glob(entry@) ==> r is Glob,
        !spec_looks_like_glob(entry@) && on_disk_dir && spec_is_ignored_path(entry@) ==> (r matches EntryKind::Skip(m) && m@ == "skip (ignored directory): "@ + entry@),
        !spec_looks_like_glob(entry@) && !(on_disk_dir && spec_is_ignored_path(entry@)) ==> r is Walk,
{
    if looks_like_glob(entry) {
        return EntryKind::Glob;
    }
    if on_disk_dir && is_ignored_path(entry) {
        return EntryKind::Skip(text_with("skip (ignored directory): ", entry));
    }
    EntryKind::Walk
}

/// The path under which a found file is kept: glob results are kept as found,
/// walked files are made relative to the working directory `cwd`.
pub open spec fn kept_path(p: Seq<char>, glob: bool, cwd: Option<Seq<char>>) -> Seq<char> {
    if glob {
        p
    } else {
        spec_relativize(p, cwd)
    }
}

pub open spec fn opt_str_view(c: Option<&str>) -> Option<Seq<char>> {
    match c {
        Some(s) => Some(s@),
        None => None,
    }
}

/// Adds the files `found` for `entry` to `files`, or returns the message that
/// skips the entry when nothing was found. `glob` tells whether the entry was
/// a glob pattern; `cwd` is the working directory when known.
pub fn add_entry_files(files: &mut FileSet, entry: &str, found: &Vec<String>, glob: bool, cwd: Option<&str>) -> (r: Option<String>)
    ensures
        found@.len() == 0 ==> final(files)@ == old(files)@,
        found@.len() == 0 && glob ==> (r matches Some(m) && m@ == "skip (glob matched no files): "@ + entry@),
        found@.len() == 0 && !glob ==> (r matches Some(m) && m@ == "skip (not found / no files): "@ + entry@),
        found@.len() > 0 ==> r is None,
        path_sorted(final(files)@),
        forall|q: Seq<char>| #[trigger] contains_path(final(files)@, q) <==> (contains_path(old(files)@, q)
            || exists|k: int| 0 <= k < found@.len() && path_eq(kept_path(#[trigger] found@[k]@, glob, opt_str_view(cwd)), q)),
        forall|x: Seq<char>| #[trigger] old(files)@.contains(x) ==> final(files)@.contains(x),
        forall|x: Seq<char>| #[trigger] final(files)@.contains(x) ==> (old(files)@.contains(x)
            || exists|k: int| 0 <= k < found@.len() && x == kept_path(#[trigger] found@[k]@, glob, opt_str_view(cwd))),
{
    if found.len() == 0 {
        // `len` states that the set is ordered.
        files.len();
        if glob {
            return Some(text_with("skip (glob matched no files): ", entry));
        }
        return Some(text_with("skip (not found / no files): ", entry));
    }
    let ghost start = files@;
    let mut i: usize = 0;
    // `len` states that the set is ordered.
    files.len();
    while i < found.len()
        invariant
            0 <= i <= found@.len(),
            start == old(files)@,
            path_sorted(files@),
            forall|q: Seq<char>| #[trigger] contains_path(files@, q) <==> (contains_path(start, q)
                || exists|k: int| 0 <= k < i && path_eq(kept_path(#[trigger] found@[k]@, glob, opt_str_view(cwd)), q)),
            forall|x: Seq<char>| #[trigger] start.contains(x) ==> files@.contains(x),
            forall|x: Seq<char>| #[trigger] files@.contains(x) ==> (start.contains(x)
                || exists|k: int| 0 <= k < i && x == kept_path(#[trigger] found@[k]@, glob, opt_str_view(cwd))),
        decreases found@.len() - i,
    {
        let p = if glob {
            found[i].clone()
        } else {
            relativize_to_cwd(found[i].as_str(), cwd)
        };
        let ghost pv = p@;
        let ghost prev = files@;
        assert(pv == kept_path(found@[i as int]@, glob, opt_str_view(cwd)));
        let added = files.insert(p);
        proof {
            if added {
                let k = choose|k: int| 0 <= k <= prev.len() && files@ == prev.insert(k, pv);
                assert forall|x: Seq<char>| #[trigger] prev.contains(x) implies files@.contains(x) by {
                    let j = choose|j: int| 0 <= j < prev.len() && prev[j] == x;
                    if j < k {
                        assert(files@[j] == x);
                    } else {
                        assert(files@[j + 1] == x);
                    }
                }
                assert forall|x: Seq<char>| #[trigger] files@.contains(x) implies (prev.contains(x) || x == pv) by {
                    let j = choose|j: int| 0 <= j < files@.len() && files@[j] == x;
                    if j < k {
                        assert(prev[j] == x);
                    } else if j > k {
                        assert(prev[j - 1] == x);
                    }
                }
            }
            assert forall|x: Seq<char>| #[trigger] files@.contains(x) implies (start.contains(x)
                || exists|k: int| 0 <= k < i + 1 && x == kept_path(#[trigger] found@[k]@, glob, opt_str_view(cwd))) by {
                if prev.contains(x) {
                    if !start.contains(x) {
                        let k = choose|k: int| 0 <= k < i && x == kept_path(#[trigger] found@[k]@, glob, opt_str_view(cwd));
                        assert(0 <= k < i + 1);
                    }
                } else {
                    assert(x == kept_path(found@[i as int]@, glob, opt_str_view(cwd)));
                }
            }
            assert forall|q: Seq<char>| #[trigger] contains_path(files@, q) <==> (contains_path(start, q)
                || exists|k: int| 0 <= k < i + 1 && path_eq(kept_path(#[trigger] found@[k]@, glob, opt_str_view(cwd)), q)) by {
                if path_eq(pv, q) {
                    assert(path_eq(kept_path(found@[i as int]@, glob, opt_str_view(cwd)), q));
                }
                if exists|k: int| 0 <= k < i + 1 && path_eq(kept_path(#[trigger] found@[k]@, glob, opt_str_view(cwd)), q) {
                    let k = choose|k: int| 0 <= k < i + 1 && path_eq(kept_path(#[trigger] found@[k]@, glob, opt_str_view(cwd)), q);
                    if k < i {
                        assert(exists|k: int| 0 <= k < i && path_eq(kept_path(#[trigger] found@[k]@, glob, opt_str_view(cwd)), q));
                    }
                }
            }
        }
        i += 1;
    }
    None
}

/// The counts that `status` reports.
pub struct StatusReport {
    pub version: u8,
    pub in_count: usize,
    pub out_count: usize,
    pub file_overrides: usize,
    pub has_in_entries: bool,
}

/// The counts of the manifest, and whether anything is in scope.
pub fn status(scopeconfig: &ScopeConfig) -> (r: StatusReport)
    ensures
        r.version == scopeconfig.version,
        r.in_count == scopeconfig.in_entries@.len(),
        r.out_count == scopeconfig.out_entries@.len(),
        r.file_overrides == scopeconfig.files.len(),
        r.has_in_entries == (scopeconfig.in_entries@.len() > 0),
{
    StatusReport {
        version: scopeconfig.version,
        in_count: scopeconfig.in_entries.len(),
        out_count: scopeconfig.out_entries.len(),
        file_overrides: scopeconfig.files.len(),
        has_in_entries: scopeconfig.in_entries.len() > 0,
    }
}

/// The conflicts and overrides that `list` reports.
pub struct ListReport {
    pub conflicts: Vec<String>,
    pub overrides: Vec<String>,
}

/// The exact conflicts and the overrides of the manifest; `in_dirs[k]` tells
/// whether the path of IN entry `k` is a directory on disk.
pub fn list(scopeconfig: &ScopeConfig, in_dirs: &[bool]) -> (r: ListReport)
    requires
        in_dirs@.len() == scopeconfig.in_entries@.len(),
    ensures
        chars_strictly_sorted(strs(r.conflicts@)),
        forall|t: Seq<char>| #[trigger] strs(r.conflicts@).contains(t) <==> is_conflict(
            strs(scopeconfig.in_entries@),
            strs(scopeconfig.out_entries@),
            t,
        ),
        chars_strictly_sorted(strs(r.overrides@)),
        forall|t: Seq<char>| #[trigger] strs(r.overrides@).contains(t) <==> is_override_note(
            strs(scopeconfig.in_entries@),
            strs(scopeconfig.out_entries@),
            in_dirs@,
            t,
        ),
{
    let conflicts = find_exact_conflicts(scopeconfig.in_entries.as_slice(), scopeconfig.out_entries.as_slice());
    let overrides = find_overrides(scopeconfig.in_entries.as_slice(), scopeconfig.out_entries.as_slice(), in_dirs);
    ListReport { conflicts, overrides }
}


/// The marker chosen for a file is always a one-line marker.
proof fn lemma_chosen_marker_one_line(file: Seq<char>, c: Seq<char>)
    ensures
        spec_marker_for_file(file, c) matches Some(m) ==> crate::markers::is_one_line_marker(m),
{
    lemma_file_markers_are_one_line();
}

/// Adding a marker keeps a leading shebang.
proof fn lemma_apply_keeps_shebang(c: Seq<char>, m: Seq<char>)
    requires
        starts_with(c, "#!"@),
    ensures
        starts_with(spec_apply_scope_marker(c, m).0, "#!"@),
{
    reveal_strlit("#!");
    let u = spec_apply_scope_marker(c, m).0;
    assert(c.take(2)[0] == c[0] && c.take(2)[1] == c[1]);
    if !spec_has_scope_marker(c) {
        let k = first_index(c, '\n');
        lemma_first_index_bound(c, '\n');
        if k < 2 {
            assert(c[k as int] == '\n');
        }
        assert(u[0] == c[0] && u[1] == c[1]);
        assert(u.take(2) =~= c.take(2));
    }
}

/// A file that the IN pass of `sync` writes is marked afterwards.
pub proof fn lemma_in_pass_marks(dry_run: bool, file: Seq<char>, c: Seq<char>)
    ensures
        spec_sync_in_file(dry_run, file, ReadView::Text(c)) matches PlanView::Write(u, _) ==> spec_has_scope_marker(u),
{
    lemma_chosen_marker_one_line(file, c);
    if let Some(m) = spec_marker_for_file(file, c) {
        lemma_apply_marks(c, m);
    }
}

/// `annotate --apply` leaves every file it writes marked.
pub proof fn lemma_annotate_apply_marks(dry_run: bool, file: Seq<char>, c: Seq<char>)
    ensures
        spec_annotate_file(true, dry_run, file, ReadView::Text(c)) matches PlanView::Write(u, _) ==> spec_has_scope_marker(u),
{
    lemma_chosen_marker_one_line(file, c);
    if let Some(m) = spec_marker_for_file(file, c) {
        lemma_apply_marks(c, m);
    }
}

/// The IN pass of `sync` is idempotent: on the text it wrote, a second pass
/// changes nothing.
pub proof fn lemma_in_pass_idempotent(dry_run: bool, file: Seq<char>, c: Seq<char>)
    ensures
        spec_sync_in_file(dry_run, file, ReadView::Text(c)) matches PlanView::Write(u, _) ==> spec_sync_in_file(dry_run, file, ReadView::Text(u)) == PlanView::Done(None, Outcome::Unchanged),
{
    lemma_chosen_marker_one_line(file, c);
    if let Some(m) = spec_marker_for_file(file, c) {
        let u = spec_apply_scope_marker(c, m).0;
        lemma_apply_marks(c, m);
        if starts_with(c, "#!"@) {
            lemma_apply_keeps_shebang(c, m);
        }
        assert(spec_marker_for_file(file, u) == Some(m));
    }
}

/// A dry run never writes: every step of `annotate` and of both passes of
/// `sync` only reports.
pub proof fn lemma_dry_run_never_writes(apply: bool, file: Seq<char>, read: ReadView)
    ensures
        spec_annotate_file(apply, true, file, read) is Done,
        spec_sync_in_file(true, file, read) is Done,
        spec_sync_out_file(true, file, read) is Done,
{
}

/// OUT wins over IN: a file that is both IN and OUT is skipped, unread and
/// unwritten, whenever markers are applied.
pub proof fn lemma_out_wins(file: Seq<char>)
    ensures
        spec_out_wins_gate(true, true, file) == Some(said("skip (out wins over in): "@ + file, Outcome::Skipped)),
{
}

/// The gates of the IN files, in set order: a file that is OUT as well is
/// skipped while markers are applied (`applying`).
pub fn in_pass_gates(applying: bool, in_set: &FileSet, out_set: &FileSet) -> (r: Vec<Gate>)
    ensures
        r@.len() == in_set@.len(),
        forall|i: int| 0 <= i < in_set@.len() ==> gate_view(#[trigger] r@[i]) == spec_out_wins_gate(
            applying,
            contains_path(out_set@, in_set@[i]),
            in_set@[i],
        ),
{
    let mut r: Vec<Gate> = Vec::new();
    let mut i: usize = 0;
    let n = in_set.len();
    while i < n
        invariant
            n == in_set@.len(),
            0 <= i <= n,
            r@.len() == i,
            forall|j: int| 0 <= j < i ==> gate_view(#[trigger] r@[j]) == spec_out_wins_gate(
                applying,
                contains_path(out_set@, in_set@[j]),
                in_set@[j],
            ),
        decreases n - i,
    {
        let file = in_set.get(i);
        let excluded = out_set.contains(file.as_str());
        let ghost before = r@;
        r.push(out_wins_gate(applying, excluded, file.as_str()));
        assert forall|j: int| 0 <= j < i + 1 implies gate_view(#[trigger] r@[j]) == spec_out_wins_gate(
            applying,
            contains_path(out_set@, in_set@[j]),
            in_set@[j],
        ) by {
            if j < i {
                assert(r@[j] == before[j]);
            }
        }
        i += 1;
    }
    r
}

/// What a walk does with one directory item.
pub enum WalkStep {
    Skip,
    File,
    Descend,
}

/// What a walk does with one directory item: symbolic links are skipped,
/// files are taken, and directories are entered unless their path is ignored.
pub fn walk_step(is_symlink: bool, is_file: bool, is_dir: bool, path: &str) -> (r: WalkStep)
    ensures
        is_symlink ==> r is Skip,
        !is_symlink && is_file ==> r is File,
        !is_symlink && !is_file && is_dir && !spec_is_ignored_path(path@) ==> r is Descend,
        !is_symlink && !is_file && is_dir && spec_is_ignored_path(path@) ==> r is Skip,
        !is_symlink && !is_file && !is_dir ==> r is Skip,
{
    if is_symlink {
        WalkStep::Skip
    } else if is_file {
        WalkStep::File
    } else if is_dir && !is_ignored_path(path) {
        WalkStep::Descend
    } else {
        WalkStep::Skip
    }
}

/// The outcome that a plan comes to when its write, if any, succeeds.
pub open spec fn settled_outcome(p: PlanView) -> Outcome {
    match p {
        PlanView::Done(_, o) => o,
        PlanView::Write(_, _) => Outcome::Changed,
    }
}

/// What the IN pass of `sync` does with one IN file: skip it when it is also
/// OUT (`excluded`), else decide on what was read.
pub open spec fn sync_in_plan(dry_run: bool, file: Seq<char>, excluded: bool, read: ReadView) -> PlanView {
    match spec_out_wins_gate(true, excluded, file) {
        Some(v) => v,
        None => spec_sync_in_file(dry_run, file, read),
    }
}

/// The outcomes of a whole `sync`, file by file, when every write succeeds:
/// the IN files (with whether each is also OUT, and what reading it gave),
/// then the OUT files (with what reading each gave).
pub open spec fn sync_outcomes(
    dry_run: bool,
    in_files: Seq<Seq<char>>,
    in_excluded: Seq<bool>,
    in_reads: Seq<ReadView>,
    out_files: Seq<Seq<char>>,
    out_reads: Seq<ReadView>,
) -> Seq<Outcome> {
    Seq::new(in_files.len(), |i: int| settled_outcome(sync_in_plan(dry_run, in_files[i], in_excluded[i], in_reads[i])))
        + Seq::new(out_files.len(), |j: int| settled_outcome(spec_sync_out_file(dry_run, out_files[j], out_reads[j])))
}

/// How many outcomes of `s` are `o`: the count a `Tally` makes of them.
pub open spec fn count_of(s: Seq<Outcome>, o: Outcome) -> nat
    decreases s.len(),
{
    if s.len() == 0 {
        0
    } else {
        count_of(s.drop_last(), o) + if s.last() == o {
            1nat
        } else {
            0
        }
    }
}

proof fn lemma_count_of_pointwise(a: Seq<Outcome>, b: Seq<Outcome>, o: Outcome)
    requires
        a.len() == b.len(),
        forall|i: int| 0 <= i < a.len() ==> (a[i] == o <==> b[i] == o),
    ensures
        count_of(a, o) == count_of(b, o),
    decreases a.len(),
{
    if a.len() > 0 {
        lemma_count_of_pointwise(a.drop_last(), b.drop_last(), o);
        assert(a.last() == a[a.len() - 1] && b.last() == b[b.len() - 1]);
    }
}

proof fn lemma_count_of_none(a: Seq<Outcome>, o: Outcome)
    requires
        forall|i: int| 0 <= i < a.len() ==> a[i] != o,
    ensures
        count_of(a, o) == 0,
    decreases a.len(),
{
    if a.len() > 0 {
        lemma_count_of_none(a.drop_last(), o);
        assert(a.last() == a[a.len() - 1]);
    }
}

/// One step of a dry run reports `Changed` exactly where the real step writes,
/// and is the real step everywhere else.
pub proof fn lemma_dry_step_matches_real(apply: bool, file: Seq<char>, read: ReadView)
    ensures
        spec_sync_in_file(false, file, read) is Write <==> (spec_sync_in_file(true, file, read) matches PlanView::Done(Some(_), Outcome::Changed)),
        !(spec_sync_in_file(false, file, read) is Write) ==> spec_sync_in_file(true, file, read) == spec_sync_in_file(false, file, read),
        spec_sync_out_file(false, file, read) is Write <==> (spec_sync_out_file(true, file, read) matches PlanView::Done(Some(_), Outcome::Changed)),
        !(spec_sync_out_file(false, file, read) is Write) ==> spec_sync_out_file(true, file, read) == spec_sync_out_file(false, file, read),
        spec_annotate_file(apply, false, file, read) is Write <==> (spec_annotate_file(apply, true, file, read) matches PlanView::Done(Some(_), Outcome::Changed)),
        !(spec_annotate_file(apply, false, file, read) is Write) ==> spec_annotate_file(apply, true, file, read) == spec_annotate_file(apply, false, file, read),
{
}

/// A dry `sync` comes to the same outcomes, file by file, as a real `sync`
/// on the same files and the same disk whose writes all succeed, so it
/// reports the same counts; and it reports `Changed` for exactly the files
/// that the real run writes.
pub proof fn lemma_dry_sync_matches_real(
    in_files: Seq<Seq<char>>,
    in_excluded: Seq<bool>,
    in_reads: Seq<ReadView>,
    out_files: Seq<Seq<char>>,
    out_reads: Seq<ReadView>,
)
    requires
        in_excluded.len() == in_files.len(),
        in_reads.len() == in_files.len(),
        out_reads.len() == out_files.len(),
    ensures
        sync_outcomes(true, in_files, in_excluded, in_reads, out_files, out_reads) == sync_outcomes(
            false,
            in_files,
            in_excluded,
            in_reads,
            out_files,
            out_reads,
        ),
        forall|o: Outcome| count_of(sync_outcomes(true, in_files, in_excluded, in_reads, out_files, out_reads), o)
            == count_of(sync_outcomes(false, in_files, in_excluded, in_reads, out_files, out_reads), o),
        forall|i: int| 0 <= i < in_files.len() ==> (#[trigger] sync_in_plan(false, in_files[i], in_excluded[i], in_reads[i]) is Write
            <==> (sync_in_plan(true, in_files[i], in_excluded[i], in_reads[i]) matches PlanView::Done(Some(_), Outcome::Changed))),
        forall|j: int| 0 <= j < out_files.len() ==> (#[trigger] spec_sync_out_file(false, out_files[j], out_reads[j]) is Write
            <==> (spec_sync_out_file(true, out_files[j], out_reads[j]) matches PlanView::Done(Some(_), Outcome::Changed))),
{
    let a = sync_outcomes(true, in_files, in_excluded, in_reads, out_files, out_reads);
    let b = sync_outcomes(false, in_files, in_excluded, in_reads, out_files, out_reads);
    assert forall|i: int| 0 <= i < in_files.len() implies settled_outcome(sync_in_plan(true, in_files[i], in_excluded[i], in_reads[i]))
        == settled_outcome(sync_in_plan(false, in_files[i], in_excluded[i], in_reads[i])) by {
        lemma_dry_step_matches_real(true, in_files[i], in_reads[i]);
    }
    assert forall|j: int| 0 <= j < out_files.len() implies settled_outcome(spec_sync_out_file(true, out_files[j], out_reads[j]))
        == settled_outcome(spec_sync_out_file(false, out_files[j], out_reads[j])) by {
        lemma_dry_step_matches_real(true, out_files[j], out_reads[j]);
    }
    assert(a =~= b);
}

/// What reading a file gives after a step: the written text when the step
/// wrote, what was read before otherwise.
pub open spec fn read_after(p: PlanView, read: ReadView) -> ReadView {
    match p {
        PlanView::Write(u, _) => ReadView::Text(u),
        PlanView::Done(_, _) => read,
    }
}

/// A second `sync` right after a real one whose writes all succeeded writes
/// nothing, changes nothing, and fails on no more files than the first, when
/// no text that the OUT pass wrote still carries a marker. Each file is read
/// again as the first run left it.
pub proof fn lemma_second_sync_writes_nothing(
    in_files: Seq<Seq<char>>,
    in_excluded: Seq<bool>,
    in_reads: Seq<ReadView>,
    out_files: Seq<Seq<char>>,
    out_reads: Seq<ReadView>,
)
    requires
        in_excluded.len() == in_files.len(),
        in_reads.len() == in_files.len(),
        out_reads.len() == out_files.len(),
        forall|j: int| 0 <= j < out_files.len() ==> (#[trigger] spec_sync_out_file(false, out_files[j], out_reads[j])
            matches PlanView::Write(u, _) ==> !spec_has_scope_marker(u)),
    ensures
        ({
            let in_again = Seq::new(in_files.len(), |i: int| read_after(sync_in_plan(false, in_files[i], in_excluded[i], in_reads[i]), in_reads[i]));
            let out_again = Seq::new(out_files.len(), |j: int| read_after(spec_sync_out_file(false, out_files[j], out_reads[j]), out_reads[j]));
            let first = sync_outcomes(false, in_files, in_excluded, in_reads, out_files, out_reads);
            let second = sync_outcomes(false, in_files, in_excluded, in_again, out_files, out_again);
            &&& forall|i: int| 0 <= i < in_files.len() ==> !(#[trigger] sync_in_plan(false, in_files[i], in_excluded[i], in_again[i]) is Write)
            &&& forall|j: int| 0 <= j < out_files.len() ==> !(#[trigger] spec_sync_out_file(false, out_files[j], out_again[j]) is Write)
            &&& count_of(second, Outcome::Changed) == 0
            &&& count_of(second, Outcome::Failed) == count_of(first, Outcome::Failed)
        }),
{
    let in_again = Seq::new(in_files.len(), |i: int| read_after(sync_in_plan(false, in_files[i], in_excluded[i], in_reads[i]), in_reads[i]));
    let out_again = Seq::new(out_files.len(), |j: int| read_after(spec_sync_out_file(false, out_files[j], out_reads[j]), out_reads[j]));
    let first = sync_outcomes(false, in_files, in_excluded, in_reads, out_files, out_reads);
    let second = sync_outcomes(false, in_files, in_excluded, in_again, out_files, out_again);
    assert forall|i: int| 0 <= i < in_files.len() implies {
        &&& !(#[trigger] sync_in_plan(false, in_files[i], in_excluded[i], in_again[i]) is Write)
        &&& settled_outcome(sync_in_plan(false, in_files[i], in_excluded[i], in_again[i])) != Outcome::Changed
        &&& (settled_outcome(sync_in_plan(false, in_files[i], in_excluded[i], in_again[i])) == Outcome::Failed
            <==> settled_outcome(sync_in_plan(false, in_files[i], in_excluded[i], in_reads[i])) == Outcome::Failed)
    } by {
        let p = sync_in_plan(false, in_files[i], in_excluded[i], in_reads[i]);
        if let PlanView::Write(u, _) = p {
            if let ReadView::Text(c) = in_reads[i] {
                lemma_in_pass_idempotent(false, in_files[i], c);
            }
        }
    }
    assert forall|j: int| 0 <= j < out_files.len() implies {
        &&& !(#[trigger] spec_sync_out_file(false, out_files[j], out_again[j]) is Write)
        &&& settled_outcome(spec_sync_out_file(false, out_files[j], out_again[j])) != Outcome::Changed
        &&& (settled_outcome(spec_sync_out_file(false, out_files[j], out_again[j])) == Outcome::Failed
            <==> settled_outcome(spec_sync_out_file(false, out_files[j], out_reads[j])) == Outcome::Failed)
    } by {
        let p = spec_sync_out_file(false, out_files[j], out_reads[j]);
        if let PlanView::Write(u, _) = p {
            lemma_remove_unmarked(u);
        }
    }
    assert forall|k: int| 0 <= k < second.len() implies (second[k] == Outcome::Failed <==> first[k] == Outcome::Failed) by {
        if k >= in_files.len() {
            let j = k - in_files.len();
            assert(second[k] == settled_outcome(spec_sync_out_file(false, out_files[j], out_again[j])));
            assert(first[k] == settled_outcome(spec_sync_out_file(false, out_files[j], out_reads[j])));
        }
    }
    assert forall|k: int| 0 <= k < second.len() implies second[k] != Outcome::Changed by {
        if k >= in_files.len() {
            let j = k - in_files.len();
            assert(second[k] == settled_outcome(spec_sync_out_file(false, out_files[j], out_again[j])));
        }
    }
    lemma_count_of_none(second, Outcome::Changed);
    lemma_count_of_pointwise(second, first, Outcome::Failed);
}

} // verus!
