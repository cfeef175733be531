//! The scope manifest (`audit-scope.yml`): its IN and OUT entry lists, how an
//! entry is normalised, and how entries are added, removed, and checked for
//! conflicts and overrides.
use vstd::prelude::*;
use std::collections::BTreeMap;
use crate::paths::{components, is_component_prefix, path_starts_with};
use crate::text::{
    chars_lt, chars_of, lemma_chars_lt_irreflexive, lemma_chars_lt_total,
    lemma_chars_lt_transitive, range_eq, str_lt, string_of, strs, trim, trim_bounds,
    trim_end_char, trim_end_char_bound,
};

verus! {

broadcast use vstd::string::group_string_axioms;

/// The file that holds the scope manifest.
pub open spec fn config_file_name() -> Seq<char> {
    "audit-scope.yml"@
}

/// The text of a fresh manifest.
pub open spec fn initial_manifest() -> Seq<char> {
    "version: 1\ninclude: []\nexclude: []\nfiles: {}\n"@
}

/// The scope manifest.
pub struct ScopeConfig {
    pub version: u8,
    pub in_entries: Vec<String>,
    pub out_entries: Vec<String>,
    pub files: BTreeMap<String, String>,
}

/// Which entry list a command works on.
#[derive(Clone, Copy, PartialEq, Eq, Debug)]
pub enum ScopeTarget {
    In,
    Out,
}

/// Why a command stops without doing its work.
#[derive(Clone, Copy, PartialEq, Eq, Debug)]
pub enum ScopeError {
    /// The manifest does not exist.
    ConfigMissing,
    /// `init` found a manifest already.
    ConfigExists,
    /// An entry path is empty once trimmed.
    EmptyPath,
    /// `in`/`out` was given none of its actions.
    NoScopeAction,
    /// `annotate` was given neither `--apply` nor `--remove`.
    AnnotateNoMode,
    /// `annotate` was given both `--apply` and `--remove`.
    AnnotateBothModes,
    /// Some file of `annotate` could not be read or written.
    AnnotateFailed,
    /// Some file of `sync` could not be read or written.
    SyncFailed,
}

/// The message that reports an error.
pub open spec fn error_message(e: ScopeError) -> Seq<char> {
    match e {
        ScopeError::ConfigMissing => "audit-scope.yml not found. Run `inscope init` first."@,
        ScopeError::ConfigExists => "audit-scope.yml already exists"@,
        ScopeError::EmptyPath => "path cannot be empty"@,
        ScopeError::NoScopeAction => "choose one of: --add <PATH>, --remove <PATH>, --list"@,
        ScopeError::AnnotateNoMode => "choose one: --apply or --remove"@,
        ScopeError::AnnotateBothModes => "use only one flag: --apply or --remove"@,
        ScopeError::AnnotateFailed => "annotate finished with errors"@,
        ScopeError::SyncFailed => "sync finished with errors"@,
    }
}

impl ScopeError {
    /// The message that reports the error.
    pub fn message(&self) -> (r: &'static str)
        ensures
            r@ == error_message(*self),
    {
        match self {
            ScopeError::ConfigMissing => "audit-scope.yml not found. Run `inscope init` first.",
            ScopeError::ConfigExists => "audit-scope.yml already exists",
            ScopeError::EmptyPath => "path cannot be empty",
            ScopeError::NoScopeAction => "choose one of: --add <PATH>, --remove <PATH>, --list",
            ScopeError::AnnotateNoMode => "choose one: --apply or --remove",
            ScopeError::AnnotateBothModes => "use only one flag: --apply or --remove",
            ScopeError::AnnotateFailed => "annotate finished with errors",
            ScopeError::SyncFailed => "sync finished with errors",
        }
    }
}

/// The name of the manifest file.
pub fn scopeconfig_path() -> (r: &'static str)
    ensures
        r@ == config_file_name(),
{
    "audit-scope.yml"
}

/// The manifest to load when it exists (`exists` tells whether the file is
/// there), and the error otherwise.
pub fn require_scopeconfig(exists: bool) -> (r: Result<&'static str, ScopeError>)
    ensures
        exists ==> (r matches Ok(p) && p@ == config_file_name()),
        !exists ==> r == Err::<&'static str, ScopeError>(ScopeError::ConfigMissing),
{
    if !exists {
        return Err(ScopeError::ConfigMissing);
    }
    Ok(scopeconfig_path())
}

/// The text of a fresh manifest to create, unless a manifest already exists.
pub fn init(exists: bool) -> (r: Result<&'static str, ScopeError>)
    ensures
        exists ==> r == Err::<&'static str, ScopeError>(ScopeError::ConfigExists),
        !exists ==> (r matches Ok(t) && t@ == initial_manifest()),
{
    if exists {
        return Err(ScopeError::ConfigExists);
    }
    Ok("version: 1\ninclude: []\nexclude: []\nfiles: {}\n")
}

/// The label of an entry list.
pub open spec fn label_of(target: ScopeTarget) -> Seq<char> {
    match target {
        ScopeTarget::In => "in"@,
        ScopeTarget::Out => "out"@,
    }
}

/// The label of an entry list: `in` or `out`.
pub fn target_label(target: ScopeTarget) -> (r: &'static str)
    ensures
        r@ == label_of(target),
{
    match target {
        ScopeTarget::In => "in",
        ScopeTarget::Out => "out",
    }
}

/// The entries of the list that `target` names.
pub open spec fn entries_of(c: ScopeConfig, target: ScopeTarget) -> Seq<Seq<char>> {
    match target {
        ScopeTarget::In => strs(c.in_entries@),
        ScopeTarget::Out => strs(c.out_entries@),
    }
}

/// Whether `n` differs from `o` at most in the list that `target` names.
pub open spec fn same_but_list(o: ScopeConfig, n: ScopeConfig, target: ScopeTarget) -> bool {
    &&& n.version == o.version
    &&& n.files == o.files
    &&& target == ScopeTarget::In ==> n.out_entries == o.out_entries
    &&& target == ScopeTarget::Out ==> n.in_entries == o.in_entries
}

/// The entry list that `target` names.
pub fn entry_list(scopeconfig: &ScopeConfig, target: ScopeTarget) -> (r: &Vec<String>)
    ensures
        strs(r@) == entries_of(*scopeconfig, target),
{
    match target {
        ScopeTarget::In => &scopeconfig.in_entries,
        ScopeTarget::Out => &scopeconfig.out_entries,
    }
}

/// The entry list that `target` names, to change in place.
pub fn entry_list_mut(scopeconfig: &mut ScopeConfig, target: ScopeTarget) -> (r: &mut Vec<String>)
    ensures
        strs(r@) == entries_of(*old(scopeconfig), target),
        target == ScopeTarget::In ==> *r == old(scopeconfig).in_entries,
        target == ScopeTarget::Out ==> *r == old(scopeconfig).out_entries,
        target == ScopeTarget::In ==> *final(scopeconfig) == (ScopeConfig {
            in_entries: *final(r),
            ..*old(scopeconfig)
        }),
        target == ScopeTarget::Out ==> *final(scopeconfig) == (ScopeConfig {
            out_entries: *final(r),
            ..*old(scopeconfig)
        }),
{
    match target {
        ScopeTarget::In => &mut scopeconfig.in_entries,
        ScopeTarget::Out => &mut scopeconfig.out_entries,
    }
}

/// An entry as it is compared: trimmed, and without trailing `/` unless that
/// would leave nothing.
pub open spec fn spec_normalize_entry(e: Seq<char>) -> Seq<char> {
    let t = trim(e);
    if t == seq!['/'] {
        seq!['/']
    } else {
        let n = trim_end_char(t, '/');
        if n.len() == 0 {
            t
        } else {
            n
        }
    }
}

/// The entry trimmed, and without trailing `/` unless that would leave nothing.
pub fn normalize_entry(entry: &str) -> (r: String)
    ensures
        r@ == spec_normalize_entry(entry@),
{
    let v = chars_of(entry);
    assert(v@.subrange(0, v@.len() as int) =~= v@);
    let (lo, hi) = trim_bounds(&v, 0, v.len());
    if range_eq(&v, lo, hi, "/") {
        proof {
            reveal_strlit("/");
            assert("/"@ =~= seq!['/']);
        }
        return string_of(&v, lo, hi);
    }
    proof {
        reveal_strlit("/");
        assert("/"@ =~= seq!['/']);
    }
    let k = trim_end_char_bound(&v, lo, hi, '/');
    if k == lo {
        string_of(&v, lo, hi)
    } else {
        string_of(&v, lo, k)
    }
}

/// Whether the text reads as a glob pattern.
pub open spec fn spec_looks_like_glob(s: Seq<char>) -> bool {
    s.contains('*') || s.contains('?') || s.contains('[') || s.contains('{')
}

/// Whether the text holds one of `*`, `?`, `[` or `{`.
pub fn looks_like_glob(s: &str) -> (r: bool)
    ensures
        r == spec_looks_like_glob(s@),
{
    let v = chars_of(s);
    let mut i: usize = 0;
    while i < v.len()
        invariant
            v@ == s@,
            0 <= i <= v.len(),
            forall|j: int|
                0 <= j < i ==> v@[j] != '*' && v@[j] != '?' && v@[j] != '[' && v@[j] != '{',
        decreases v.len() - i,
    {
        let c = v[i];
        if c == '*' || c == '?' || c == '[' || c == '{' {
            assert(v@[i as int] == c);
            return true;
        }
        i += 1;
    }
    false
}

/// Whether an entry names a directory: it ends with `/`, or `on_disk_dir`
/// tells that the path is a directory on disk.
pub open spec fn spec_is_directory_entry(entry: Seq<char>, on_disk_dir: bool) -> bool {
    (entry.len() > 0 && entry.last() == '/') || on_disk_dir
}

/// Whether an entry names a directory: it ends with `/`, or the path is a
/// directory on disk (`on_disk_dir`).
pub fn is_directory_entry(entry: &str, on_disk_dir: bool) -> (r: bool)
    ensures
        r == spec_is_directory_entry(entry@, on_disk_dir),
{
    let v = chars_of(entry);
    let n = v.len();
    (n > 0 && v[n - 1] == '/') || on_disk_dir
}

/// The options of the `in` and `out` commands.
pub struct ScopeActionArgs {
    pub add: Option<String>,
    pub remove: Option<String>,
    pub list: bool,
}

/// What an `in` or `out` command asks for.
pub enum ScopeAction {
    Add(ScopeTarget, String),
    Remove(ScopeTarget, String),
    List(ScopeTarget),
    Invalid(ScopeError),
}

/// The action of an `in`/`out` command: `--add` first, then `--remove`, then
/// `--list`; none of them is an error.
pub fn handle_scope_action(target: ScopeTarget, args: ScopeActionArgs) -> (r: ScopeAction)
    ensures
        args.add matches Some(p) ==> r == ScopeAction::Add(target, p),
        args.add is None ==> (args.remove matches Some(p) ==> r == ScopeAction::Remove(target, p)),
        args.add is None && args.remove is None && args.list ==> r == ScopeAction::List(target),
        args.add is None && args.remove is None && !args.list ==> r == ScopeAction::Invalid(
            ScopeError::NoScopeAction,
        ),
{
    if let Some(path) = args.add {
        return ScopeAction::Add(target, path);
    }
    if let Some(path) = args.remove {
        return ScopeAction::Remove(target, path);
    }
    if args.list {
        return ScopeAction::List(target);
    }
    ScopeAction::Invalid(ScopeError::NoScopeAction)
}


/// Whether the texts are in non-decreasing order of `String`.
pub open spec fn chars_sorted(s: Seq<Seq<char>>) -> bool {
    forall|i: int, j: int| 0 <= i < j < s.len() ==> !chars_lt(#[trigger] s[j], #[trigger] s[i])
}

/// Sorts the strings in the order of `String` (`slice::sort`).
pub fn sort_entries(v: &mut Vec<String>)
    ensures
        chars_sorted(strs(final(v)@)),
        strs(final(v)@).to_multiset() == strs(old(v)@).to_multiset(),
{
    let mut out: Vec<String> = Vec::new();
    let n = v.len();
    let ghost all = strs(v@);
    assert(all.take(0) =~= strs(out@));
    let mut i: usize = 0;
    while i < n
        invariant
            n == v.len(),
            all == strs(v@),
            0 <= i <= n,
            chars_sorted(strs(out@)),
            strs(out@).to_multiset() == all.take(i as int).to_multiset(),
        decreases n - i,
    {
        let x = v[i].clone();
        let mut k: usize = 0;
        while k < out.len() && !str_lt(x.as_str(), out[k].as_str())
            invariant
                0 <= k <= out.len(),
                forall|j: int| 0 <= j < k ==> !chars_lt(x@, #[trigger] strs(out@)[j]),
            decreases out.len() - k,
        {
            k += 1;
        }
        let ghost before = strs(out@);
        let ghost xv = x@;
        out.insert(k, x);
        proof {
            let after = strs(out@);
            assert(after =~= before.insert(k as int, xv));
            assert forall|a: int, b: int| 0 <= a < b < after.len() implies !chars_lt(
                #[trigger] after[b],
                #[trigger] after[a],
            ) by {
                if b < k {
                    assert(after[a] == before[a] && after[b] == before[b]);
                } else if b == k {
                    assert(after[a] == before[a]);
                } else if a < k {
                    assert(after[a] == before[a] && after[b] == before[b - 1]);
                    if chars_lt(before[b - 1], before[a]) {
                        assert(!chars_lt(xv, before[a]));
                        lemma_chars_lt_total(xv, before[a]);
                        if xv != before[a] {
                            lemma_chars_lt_transitive(before[b - 1], before[a], xv);
                        }
                        assert(chars_lt(xv, before[k as int]));
                        if b - 1 > k {
                            assert(!chars_lt(before[b - 1], before[k as int]));
                        }
                        lemma_chars_lt_transitive(before[b - 1], xv, before[k as int]);
                        lemma_chars_lt_irreflexive(before[k as int]);
                    }
                } else if a == k {
                    assert(after[b] == before[b - 1]);
                    if chars_lt(before[b - 1], xv) {
                        assert(chars_lt(xv, before[k as int]));
                        lemma_chars_lt_transitive(before[b - 1], xv, before[k as int]);
                        if b - 1 > k {
                            assert(!chars_lt(before[b - 1], before[k as int]));
                        } else {
                            lemma_chars_lt_irreflexive(before[k as int]);
                        }
                    }
                } else {
                    assert(after[a] == before[a - 1] && after[b] == before[b - 1]);
                }
            }
            vstd::seq_lib::to_multiset_insert(before, k as int, xv);
            assert(all.take(i + 1) =~= all.take(i as int).push(xv));
            vstd::seq_lib::to_multiset_build(all.take(i as int), xv);
        }
        i += 1;
    }
    assert(all.take(n as int) =~= all);
    *v = out;
}

/// Whether some entry of `s` normalises to `n`.
pub open spec fn has_normalized(s: Seq<Seq<char>>, n: Seq<char>) -> bool {
    exists|i: int| 0 <= i < s.len() && spec_normalize_entry(#[trigger] s[i]) == n
}

/// The entries of `s` that do not normalise to `n`, in their order (`Vec::retain`).
pub open spec fn without_normalized(s: Seq<Seq<char>>, n: Seq<char>) -> Seq<Seq<char>>
    decreases s.len(),
{
    if s.len() == 0 {
        s
    } else {
        let r = without_normalized(s.drop_last(), n);
        if spec_normalize_entry(s.last()) != n {
            r.push(s.last())
        } else {
            r
        }
    }
}

pub proof fn lemma_without_normalized_len(s: Seq<Seq<char>>, n: Seq<char>)
    ensures
        without_normalized(s, n).len() <= s.len(),
        !has_normalized(s, n) ==> without_normalized(s, n) == s,
        has_normalized(s, n) ==> without_normalized(s, n).len() < s.len(),
    decreases s.len(),
{
    if s.len() > 0 {
        let d = s.drop_last();
        lemma_without_normalized_len(d, n);
        if !has_normalized(s, n) {
            assert forall|i: int| 0 <= i < d.len() implies spec_normalize_entry(#[trigger] d[i]) != n by {
                assert(d[i] == s[i]);
            }
            assert(s.last() == s[s.len() - 1]);
            assert(d.push(s.last()) =~= s);
        } else {
            let i = choose|i: int| 0 <= i < s.len() && spec_normalize_entry(#[trigger] s[i]) == n;
            if i < s.len() - 1 {
                assert(d[i] == s[i]);
                assert(has_normalized(d, n));
            }
        }
    }
}

/// The list has no entry that normalises to `n`.
pub proof fn lemma_without_normalized_excludes(s: Seq<Seq<char>>, n: Seq<char>)
    ensures
        !has_normalized(without_normalized(s, n), n),
    decreases s.len(),
{
    if s.len() > 0 {
        lemma_without_normalized_excludes(s.drop_last(), n);
        let r = without_normalized(s.drop_last(), n);
        if spec_normalize_entry(s.last()) != n {
            assert forall|i: int| 0 <= i < r.push(s.last()).len() implies spec_normalize_entry(
                #[trigger] r.push(s.last())[i],
            ) != n by {
                if i < r.len() {
                    assert(r.push(s.last())[i] == r[i]);
                }
            }
        }
    }
}

/// The path of an entry command, trimmed; an empty path is an error.
pub fn scope_entry_path(path: &str) -> (r: Result<String, ScopeError>)
    ensures
        trim(path@).len() == 0 ==> r == Err::<String, ScopeError>(ScopeError::EmptyPath),
        trim(path@).len() > 0 ==> (r matches Ok(t) && t@ == trim(path@)),
{
    let trimmed = crate::text::trim_str(path);
    if chars_of(trimmed.as_str()).len() == 0 {
        return Err(ScopeError::EmptyPath);
    }
    Ok(trimmed)
}

/// Adds `path` (trimmed) to the list that `target` names, unless an entry
/// with the same normalised form is there; the list is then sorted. Returns
/// whether the entry was added.
pub fn add_scope_entry(scopeconfig: &mut ScopeConfig, target: ScopeTarget, path: &str) -> (r: Result<bool, ScopeError>)
    ensures
        trim(path@).len() == 0 ==> r == Err::<bool, ScopeError>(ScopeError::EmptyPath),
        trim(path@).len() > 0 ==> r is Ok,
        r is Err ==> *final(scopeconfig) == *old(scopeconfig),
        r matches Ok(added) ==> added == !has_normalized(
            entries_of(*old(scopeconfig), target),
            spec_normalize_entry(trim(path@)),
        ),
        r == Ok::<bool, ScopeError>(false) ==> *final(scopeconfig) == *old(scopeconfig),
        r is Ok ==> has_normalized(
            entries_of(*final(scopeconfig), target),
            spec_normalize_entry(trim(path@)),
        ),
        r == Ok::<bool, ScopeError>(true) ==> {
            &&& same_but_list(*old(scopeconfig), *final(scopeconfig), target)
            &&& chars_sorted(entries_of(*final(scopeconfig), target))
            &&& entries_of(*final(scopeconfig), target).to_multiset() == entries_of(
                *old(scopeconfig),
                target,
            ).push(trim(path@)).to_multiset()
        },
{
    let trimmed = crate::text::trim_str(path);
    if chars_of(trimmed.as_str()).len() == 0 {
        return Err(ScopeError::EmptyPath);
    }
    let normalized = normalize_entry(trimmed.as_str());
    let ghost n = normalized@;
    let entries = entry_list(scopeconfig, target);
    let ghost list = strs(entries@);
    let mut i: usize = 0;
    while i < entries.len()
        invariant
            list == strs(entries@),
            list == entries_of(*old(scopeconfig), target),
            *scopeconfig == *old(scopeconfig),
            trimmed@ == trim(path@),
            trimmed@.len() > 0,
            n == spec_normalize_entry(trim(path@)),
            n == normalized@,
            0 <= i <= entries.len(),
            forall|j: int| 0 <= j < i ==> spec_normalize_entry(#[trigger] list[j]) != n,
        decreases entries.len() - i,
    {
        assert(list[i as int] == entries@[i as int]@);
        if normalize_entry(entries[i].as_str()) == normalized {
            assert(spec_normalize_entry(list[i as int]) == n);
            return Ok(false);
        }
        i += 1;
    }
    let entries = entry_list_mut(scopeconfig, target);
    let ghost tv = trimmed@;
    entries.push(trimmed);
    assert(strs(entries@) =~= list.push(tv));
    sort_entries(entries);
    proof {
        let after = strs(entries@);
        vstd::seq_lib::to_multiset_contains(list.push(tv), tv);
        vstd::seq_lib::to_multiset_contains(after, tv);
        assert(list.push(tv)[list.len() as int] == tv);
        assert(list.push(tv).contains(tv));
        let j = choose|j: int| 0 <= j < after.len() && after[j] == tv;
        assert(spec_normalize_entry(after[j]) == n);
    }
    Ok(true)
}

/// Removes from the list that `target` names every entry whose normalised
/// form is that of `path`. Returns whether some entry was removed.
pub fn remove_scope_entry(scopeconfig: &mut ScopeConfig, target: ScopeTarget, path: &str) -> (r: Result<bool, ScopeError>)
    ensures
        trim(path@).len() == 0 ==> r == Err::<bool, ScopeError>(ScopeError::EmptyPath),
        trim(path@).len() > 0 ==> r is Ok,
        r is Err ==> *final(scopeconfig) == *old(scopeconfig),
        r matches Ok(removed) ==> removed == has_normalized(
            entries_of(*old(scopeconfig), target),
            spec_normalize_entry(trim(path@)),
        ),
        r == Ok::<bool, ScopeError>(false) ==> *final(scopeconfig) == *old(scopeconfig),
        r is Ok ==> !has_normalized(
            entries_of(*final(scopeconfig), target),
            spec_normalize_entry(trim(path@)),
        ),
        r == Ok::<bool, ScopeError>(true) ==> {
            &&& same_but_list(*old(scopeconfig), *final(scopeconfig), target)
            &&& entries_of(*final(scopeconfig), target) == without_normalized(
                entries_of(*old(scopeconfig), target),
                spec_normalize_entry(trim(path@)),
            )
        },
{
    let trimmed = crate::text::trim_str(path);
    if chars_of(trimmed.as_str()).len() == 0 {
        return Err(ScopeError::EmptyPath);
    }
    let normalized = normalize_entry(trimmed.as_str());
    let ghost n = normalized@;
    let ghost list = entries_of(*scopeconfig, target);
    let mut kept: Vec<String> = Vec::new();
    {
        let entries = entry_list(scopeconfig, target);
        let mut i: usize = 0;
        assert(list.take(0) =~= Seq::<Seq<char>>::empty());
        while i < entries.len()
            invariant
                list == strs(entries@),
                n == normalized@,
                0 <= i <= entries.len(),
                strs(kept@) == without_normalized(list.take(i as int), n),
            decreases entries.len() - i,
        {
            let ghost prefix = list.take(i + 1);
            assert(prefix.drop_last() =~= list.take(i as int));
            assert(prefix.last() == list[i as int]);
            assert(list[i as int] == entries@[i as int]@);
            let same = normalize_entry(entries[i].as_str()) == normalized;
            if !same {
                let ghost before = strs(kept@);
                kept.push(entries[i].clone());
                assert(spec_normalize_entry(list[i as int]) != n);
                assert(without_normalized(prefix, n) == without_normalized(list.take(i as int), n).push(list[i as int]));
                assert(strs(kept@) =~= before.push(list[i as int]));
            } else {
                assert(spec_normalize_entry(list[i as int]) == n);
                assert(without_normalized(prefix, n) == without_normalized(list.take(i as int), n));
            }
            i += 1;
        }
        assert(list.take(entries.len() as int) =~= list);
    }
    proof {
        lemma_without_normalized_len(list, n);
        lemma_without_normalized_excludes(list, n);
    }
    let before = entry_list(scopeconfig, target).len();
    if kept.len() == before {
        return Ok(false);
    }
    let entries = entry_list_mut(scopeconfig, target);
    *entries = kept;
    Ok(true)
}


/// Whether the texts are in strictly increasing order of `String` (a `BTreeSet<String>`).
pub open spec fn chars_strictly_sorted(s: Seq<Seq<char>>) -> bool {
    forall|i: int, j: int| 0 <= i < j < s.len() ==> chars_lt(#[trigger] s[i], #[trigger] s[j])
}

/// Adds `x` to the strictly sorted strings `v` unless it is there (`BTreeSet::insert`).
pub fn insert_sorted_text(v: &mut Vec<String>, x: String)
    requires
        chars_strictly_sorted(strs(old(v)@)),
    ensures
        chars_strictly_sorted(strs(final(v)@)),
        forall|t: Seq<char>| strs(final(v)@).contains(t) <==> (strs(old(v)@).contains(t) || t == x@),
{
    let ghost before = strs(v@);
    let mut k: usize = 0;
    while k < v.len() && str_lt(v[k].as_str(), x.as_str())
        invariant
            before == strs(v@),
            0 <= k <= v.len(),
            forall|j: int| 0 <= j < k ==> chars_lt(#[trigger] before[j], x@),
        decreases v.len() - k,
    {
        assert(before[k as int] == v@[k as int]@);
        k += 1;
    }
    if k < v.len() && v[k].eq(&x) {
        assert(before[k as int] == x@);
        assert forall|t: Seq<char>| strs(v@).contains(t) <==> (before.contains(t) || t == x@) by {
            if t == x@ {
                assert(before[k as int] == t);
            }
        }
        return;
    }
    proof {
        if k < before.len() {
            assert(before[k as int] == v@[k as int]@);
            lemma_chars_lt_total(before[k as int], x@);
            assert(chars_lt(x@, before[k as int]));
        }
    }
    let ghost xv = x@;
    v.insert(k, x);
    proof {
        let after = strs(v@);
        assert(after =~= before.insert(k as int, xv));
        assert forall|a: int, b: int| 0 <= a < b < after.len() implies chars_lt(
            #[trigger] after[a],
            #[trigger] after[b],
        ) by {
            if b < k {
                assert(after[a] == before[a] && after[b] == before[b]);
            } else if b == k {
                assert(after[a] == before[a]);
            } else if a < k {
                assert(after[a] == before[a] && after[b] == before[b - 1]);
                if b - 1 > k {
                    lemma_chars_lt_transitive(xv, before[k as int], before[b - 1]);
                }
                lemma_chars_lt_transitive(before[a], xv, before[b - 1]);
            } else if a == k {
                assert(after[b] == before[b - 1]);
                if b - 1 > k {
                    lemma_chars_lt_transitive(xv, before[k as int], before[b - 1]);
                }
            } else {
                assert(after[a] == before[a - 1] && after[b] == before[b - 1]);
            }
        }
        assert forall|t: Seq<char>| after.contains(t) <==> (before.contains(t) || t == xv) by {
            if after.contains(t) {
                let j = choose|j: int| 0 <= j < after.len() && after[j] == t;
                if j < k {
                    assert(before[j] == t);
                } else if j > k {
                    assert(before[j - 1] == t);
                }
            }
            if before.contains(t) {
                let j = choose|j: int| 0 <= j < before.len() && before[j] == t;
                if j < k {
                    assert(after[j] == t);
                } else {
                    assert(after[j + 1] == t);
                }
            }
            if t == xv {
                assert(after[k as int] == t);
            }
        }
    }
}

/// Whether `x` is one of the strings of `v`.
fn contains_text(v: &Vec<String>, x: &String) -> (r: bool)
    ensures
        r == strs(v@).contains(x@),
{
    let mut i: usize = 0;
    while i < v.len()
        invariant
            0 <= i <= v.len(),
            forall|j: int| 0 <= j < i ==> #[trigger] strs(v@)[j] != x@,
        decreases v.len() - i,
    {
        if v[i].eq(x) {
            assert(strs(v@)[i as int] == x@);
            return true;
        }
        i += 1;
    }
    false
}

/// The normalised forms of the entries.
fn normalized_entries(entries: &[String]) -> (r: Vec<String>)
    ensures
        r@.len() == entries@.len(),
        forall|j: int| 0 <= j < entries@.len() ==> #[trigger] strs(r@)[j] == spec_normalize_entry(entries@[j]@),
{
    let mut r: Vec<String> = Vec::new();
    let mut i: usize = 0;
    while i < entries.len()
        invariant
            0 <= i <= entries@.len(),
            r@.len() == i,
            forall|j: int| 0 <= j < i ==> #[trigger] strs(r@)[j] == spec_normalize_entry(entries@[j]@),
        decreases entries@.len() - i,
    {
        let ghost before = r@;
        r.push(normalize_entry(entries[i].as_str()));
        assert forall|j: int| 0 <= j < i + 1 implies #[trigger] strs(r@)[j] == spec_normalize_entry(entries@[j]@) by {
            if j < i {
                assert(r@[j] == before[j]);
                assert(strs(before)[j] == before[j]@);
            }
        }
        i += 1;
    }
    r
}

/// Whether `t` is the normalised form of some OUT entry and of some IN entry.
pub open spec fn is_conflict(ins: Seq<Seq<char>>, outs: Seq<Seq<char>>, t: Seq<char>) -> bool {
    has_normalized(outs, t) && has_normalized(ins, t)
}

/// A text is a conflict exactly when it is the normalised form of some OUT
/// entry and of some IN entry, whatever the entries are: the same glob
/// pattern on both sides is a conflict too.
pub proof fn lemma_conflicts_are_shared_forms(ins: Seq<Seq<char>>, outs: Seq<Seq<char>>, t: Seq<char>)
    ensures
        is_conflict(ins, outs, t) <==> (
            (exists|j: int| 0 <= j < outs.len() && spec_normalize_entry(#[trigger] outs[j]) == t)
            && (exists|k: int| 0 <= k < ins.len() && spec_normalize_entry(#[trigger] ins[k]) == t)),
{
}

/// The paths that are both IN and OUT, compared in normalised form, in
/// increasing order with no repetition.
pub fn find_exact_conflicts(in_entries: &[String], out_entries: &[String]) -> (r: Vec<String>)
    ensures
        chars_strictly_sorted(strs(r@)),
        forall|t: Seq<char>| #[trigger] strs(r@).contains(t) <==> is_conflict(
            strs(in_entries@),
            strs(out_entries@),
            t,
        ),
        forall|t: Seq<char>| #[trigger] strs(r@).contains(t) <==> (
            (exists|j: int| 0 <= j < out_entries@.len() && spec_normalize_entry(#[trigger] out_entries@[j]@) == t)
            && (exists|k: int| 0 <= k < in_entries@.len() && spec_normalize_entry(#[trigger] in_entries@[k]@) == t)),
{
    let in_set = normalized_entries(in_entries);
    let ghost ins = strs(in_entries@);
    let ghost outs = strs(out_entries@);
    proof {
        assert forall|t: Seq<char>| strs(in_set@).contains(t) <==> has_normalized(ins, t) by {
            if strs(in_set@).contains(t) {
                let j = choose|j: int| 0 <= j < strs(in_set@).len() && strs(in_set@)[j] == t;
                assert(spec_normalize_entry(ins[j]) == t);
            }
            if has_normalized(ins, t) {
                let j = choose|j: int| 0 <= j < ins.len() && spec_normalize_entry(#[trigger] ins[j]) == t;
                assert(strs(in_set@)[j] == t);
            }
        }
    }
    let mut conflicts: Vec<String> = Vec::new();
    let mut i: usize = 0;
    while i < out_entries.len()
        invariant
            0 <= i <= out_entries@.len(),
            ins == strs(in_entries@),
            outs == strs(out_entries@),
            forall|t: Seq<char>| strs(in_set@).contains(t) <==> has_normalized(ins, t),
            chars_strictly_sorted(strs(conflicts@)),
            forall|t: Seq<char>| #[trigger] strs(conflicts@).contains(t) <==> (has_normalized(outs.take(i as int), t) && has_normalized(ins, t)),
        decreases out_entries@.len() - i,
    {
        let normalized = normalize_entry(out_entries[i].as_str());
        let ghost prev = outs.take(i as int);
        let ghost next = outs.take(i + 1);
        proof {
            assert forall|t: Seq<char>| has_normalized(next, t) <==> (has_normalized(prev, t) || t == normalized@) by {
                if has_normalized(next, t) {
                    let j = choose|j: int| 0 <= j < next.len() && spec_normalize_entry(#[trigger] next[j]) == t;
                    if j < i {
                        assert(prev[j] == next[j]);
                    }
                }
                if has_normalized(prev, t) {
                    let j = choose|j: int| 0 <= j < prev.len() && spec_normalize_entry(#[trigger] prev[j]) == t;
                    assert(next[j] == prev[j]);
                }
                if t == normalized@ {
                    assert(next[i as int] == outs[i as int]);
                    assert(spec_normalize_entry(next[i as int]) == t);
                }
            }
        }
        if contains_text(&in_set, &normalized) {
            insert_sorted_text(&mut conflicts, normalized);
        }
        i += 1;
    }
    proof {
        assert(outs.take(out_entries@.len() as int) =~= outs);
        assert forall|t: Seq<char>| #[trigger] strs(conflicts@).contains(t) <==> (
            (exists|j: int| 0 <= j < out_entries@.len() && spec_normalize_entry(#[trigger] out_entries@[j]@) == t)
            && (exists|k: int| 0 <= k < in_entries@.len() && spec_normalize_entry(#[trigger] in_entries@[k]@) == t)) by {
            if has_normalized(outs, t) {
                let j = choose|j: int| 0 <= j < outs.len() && spec_normalize_entry(#[trigger] outs[j]) == t;
                assert(outs[j] == out_entries@[j]@);
            }
            if has_normalized(ins, t) {
                let k = choose|k: int| 0 <= k < ins.len() && spec_normalize_entry(#[trigger] ins[k]) == t;
                assert(ins[k] == in_entries@[k]@);
            }
            if exists|j: int| 0 <= j < out_entries@.len() && spec_normalize_entry(#[trigger] out_entries@[j]@) == t {
                let j = choose|j: int| 0 <= j < out_entries@.len() && spec_normalize_entry(#[trigger] out_entries@[j]@) == t;
                assert(outs[j] == out_entries@[j]@);
            }
            if exists|k: int| 0 <= k < in_entries@.len() && spec_normalize_entry(#[trigger] in_entries@[k]@) == t {
                let k = choose|k: int| 0 <= k < in_entries@.len() && spec_normalize_entry(#[trigger] in_entries@[k]@) == t;
                assert(ins[k] == in_entries@[k]@);
            }
        }
    }
    conflicts
}


/// The note that reports an OUT entry inside an IN directory.
pub open spec fn override_note(o: Seq<char>, i: Seq<char>) -> Seq<char> {
    "OUT "@ + o + " overrides IN "@ + i
}

/// Whether OUT entry `a` lies inside IN entry `b`: neither is a glob, the OUT
/// entry is not also an IN entry, the IN entry is a directory (`dirs[b]` tells
/// whether its path is a directory on disk), and the normalised IN path is a
/// proper leading part of the normalised OUT path, component by component.
pub open spec fn overrides(ins: Seq<Seq<char>>, outs: Seq<Seq<char>>, dirs: Seq<bool>, a: int, b: int) -> bool {
    let o = outs[a];
    let e = ins[b];
    let on = spec_normalize_entry(o);
    let en = spec_normalize_entry(e);
    &&& !spec_looks_like_glob(o)
    &&& !has_normalized(ins, on)
    &&& !spec_looks_like_glob(e)
    &&& spec_is_directory_entry(e, dirs[b])
    &&& en != on
    &&& is_component_prefix(components(en), components(on))
}

/// Whether `t` is the note of an override.
pub open spec fn is_override_note(ins: Seq<Seq<char>>, outs: Seq<Seq<char>>, dirs: Seq<bool>, t: Seq<char>) -> bool {
    exists|a: int, b: int|
        0 <= a < outs.len() && 0 <= b < ins.len() && #[trigger] overrides(ins, outs, dirs, a, b)
            && t == override_note(outs[a], ins[b])
}

/// Whether `t` is the note of an override among the pairs before `(a, b)`.
pub open spec fn found_before(ins: Seq<Seq<char>>, outs: Seq<Seq<char>>, dirs: Seq<bool>, t: Seq<char>, a: int, b: int) -> bool {
    exists|x: int, y: int|
        0 <= x < outs.len() && 0 <= y < ins.len() && (x < a || (x == a && y < b))
            && #[trigger] overrides(ins, outs, dirs, x, y) && t == override_note(outs[x], ins[y])
}

proof fn lemma_found_step(ins: Seq<Seq<char>>, outs: Seq<Seq<char>>, dirs: Seq<bool>, a: int, b: int)
    requires
        0 <= a < outs.len(),
        0 <= b < ins.len(),
    ensures
        forall|t: Seq<char>| found_before(ins, outs, dirs, t, a, b + 1) <==> (found_before(ins, outs, dirs, t, a, b) || (overrides(ins, outs, dirs, a, b) && t == override_note(outs[a], ins[b]))),
{
    assert forall|t: Seq<char>| found_before(ins, outs, dirs, t, a, b + 1) <==> (found_before(ins, outs, dirs, t, a, b) || (overrides(ins, outs, dirs, a, b) && t == override_note(outs[a], ins[b]))) by {
        if found_before(ins, outs, dirs, t, a, b + 1) {
            let (x, y) = choose|x: int, y: int|
                0 <= x < outs.len() && 0 <= y < ins.len() && (x < a || (x == a && y < b + 1))
                    && #[trigger] overrides(ins, outs, dirs, x, y) && t == override_note(outs[x], ins[y]);
            if !(x == a && y == b) {
                assert(found_before(ins, outs, dirs, t, a, b));
            }
        }
        if found_before(ins, outs, dirs, t, a, b) {
            let (x, y) = choose|x: int, y: int|
                0 <= x < outs.len() && 0 <= y < ins.len() && (x < a || (x == a && y < b))
                    && #[trigger] overrides(ins, outs, dirs, x, y) && t == override_note(outs[x], ins[y]);
            assert(overrides(ins, outs, dirs, x, y));
        }
        if overrides(ins, outs, dirs, a, b) && t == override_note(outs[a], ins[b]) {
            assert(overrides(ins, outs, dirs, a, b));
        }
    }
}

proof fn lemma_found_row(ins: Seq<Seq<char>>, outs: Seq<Seq<char>>, dirs: Seq<bool>, a: int)
    requires
        0 <= a < outs.len(),
    ensures
        forall|t: Seq<char>| found_before(ins, outs, dirs, t, a, ins.len() as int) <==> found_before(ins, outs, dirs, t, a + 1, 0),
        (forall|y: int| 0 <= y < ins.len() ==> !#[trigger] overrides(ins, outs, dirs, a, y)) ==> forall|t: Seq<char>| found_before(ins, outs, dirs, t, a, 0) <==> found_before(ins, outs, dirs, t, a + 1, 0),
{
    assert forall|t: Seq<char>| found_before(ins, outs, dirs, t, a, ins.len() as int) <==> found_before(ins, outs, dirs, t, a + 1, 0) by {
        if found_before(ins, outs, dirs, t, a + 1, 0) {
            let (x, y) = choose|x: int, y: int|
                0 <= x < outs.len() && 0 <= y < ins.len() && (x < a + 1 || (x == a + 1 && y < 0))
                    && #[trigger] overrides(ins, outs, dirs, x, y) && t == override_note(outs[x], ins[y]);
            assert(overrides(ins, outs, dirs, x, y));
        }
        if found_before(ins, outs, dirs, t, a, ins.len() as int) {
            let (x, y) = choose|x: int, y: int|
                0 <= x < outs.len() && 0 <= y < ins.len() && (x < a || (x == a && y < ins.len()))
                    && #[trigger] overrides(ins, outs, dirs, x, y) && t == override_note(outs[x], ins[y]);
            assert(overrides(ins, outs, dirs, x, y));
        }
    }
    if forall|y: int| 0 <= y < ins.len() ==> !#[trigger] overrides(ins, outs, dirs, a, y) {
        assert forall|t: Seq<char>| found_before(ins, outs, dirs, t, a, 0) <==> found_before(ins, outs, dirs, t, a + 1, 0) by {
            if found_before(ins, outs, dirs, t, a + 1, 0) {
                let (x, y) = choose|x: int, y: int|
                    0 <= x < outs.len() && 0 <= y < ins.len() && (x < a + 1 || (x == a + 1 && y < 0))
                        && #[trigger] overrides(ins, outs, dirs, x, y) && t == override_note(outs[x], ins[y]);
                assert(overrides(ins, outs, dirs, x, y));
                assert(x != a);
            }
            if found_before(ins, outs, dirs, t, a, 0) {
                let (x, y) = choose|x: int, y: int|
                    0 <= x < outs.len() && 0 <= y < ins.len() && (x < a || (x == a && y < 0))
                        && #[trigger] overrides(ins, outs, dirs, x, y) && t == override_note(outs[x], ins[y]);
                assert(overrides(ins, outs, dirs, x, y));
            }
        }
    }
}

/// An override is reported for OUT entry `o` and IN entry `i` exactly when
/// `o` is no glob and its normalised form is no IN entry's normalised form,
/// `i` is no glob and names a directory (it ends with `/`, or `dirs` tells
/// that its path is a directory on disk), and the normalised path of `i` is a
/// proper leading part, component by component, of the normalised path of
/// `o`, whether or not `o` ends with `/`; the note then reads
/// `OUT <o> overrides IN <i>`.
pub proof fn lemma_overrides_characterized(ins: Seq<Seq<char>>, outs: Seq<Seq<char>>, dirs: Seq<bool>, t: Seq<char>)
    ensures
        is_override_note(ins, outs, dirs, t) <==> exists|a: int, b: int|
            #![trigger outs[a], ins[b]]
            0 <= a < outs.len() && 0 <= b < ins.len()
                && !(outs[a].contains('*') || outs[a].contains('?') || outs[a].contains('[') || outs[a].contains('{'))
                && (forall|k: int| 0 <= k < ins.len() ==> spec_normalize_entry(#[trigger] ins[k]) != spec_normalize_entry(outs[a]))
                && !(ins[b].contains('*') || ins[b].contains('?') || ins[b].contains('[') || ins[b].contains('{'))
                && ((ins[b].len() > 0 && ins[b].last() == '/') || dirs[b])
                && spec_normalize_entry(ins[b]) != spec_normalize_entry(outs[a])
                && is_component_prefix(components(spec_normalize_entry(ins[b])), components(spec_normalize_entry(outs[a])))
                && t == "OUT "@ + outs[a] + " overrides IN "@ + ins[b],
{
    if exists|a: int, b: int|
        #![trigger outs[a], ins[b]]
        0 <= a < outs.len() && 0 <= b < ins.len()
            && !(outs[a].contains('*') || outs[a].contains('?') || outs[a].contains('[') || outs[a].contains('{'))
            && (forall|k: int| 0 <= k < ins.len() ==> spec_normalize_entry(#[trigger] ins[k]) != spec_normalize_entry(outs[a]))
            && !(ins[b].contains('*') || ins[b].contains('?') || ins[b].contains('[') || ins[b].contains('{'))
            && ((ins[b].len() > 0 && ins[b].last() == '/') || dirs[b])
            && spec_normalize_entry(ins[b]) != spec_normalize_entry(outs[a])
            && is_component_prefix(components(spec_normalize_entry(ins[b])), components(spec_normalize_entry(outs[a])))
            && t == "OUT "@ + outs[a] + " overrides IN "@ + ins[b] {
        let (a, b) = choose|a: int, b: int|
            #![trigger outs[a], ins[b]]
            0 <= a < outs.len() && 0 <= b < ins.len()
                && !(outs[a].contains('*') || outs[a].contains('?') || outs[a].contains('[') || outs[a].contains('{'))
                && (forall|k: int| 0 <= k < ins.len() ==> spec_normalize_entry(#[trigger] ins[k]) != spec_normalize_entry(outs[a]))
                && !(ins[b].contains('*') || ins[b].contains('?') || ins[b].contains('[') || ins[b].contains('{'))
                && ((ins[b].len() > 0 && ins[b].last() == '/') || dirs[b])
                && spec_normalize_entry(ins[b]) != spec_normalize_entry(outs[a])
                && is_component_prefix(components(spec_normalize_entry(ins[b])), components(spec_normalize_entry(outs[a])))
                && t == "OUT "@ + outs[a] + " overrides IN "@ + ins[b];
        assert(overrides(ins, outs, dirs, a, b));
    }
}

/// The note `OUT <o> overrides IN <i>`.
fn override_text(o: &str, i: &str) -> (r: String)
    ensures
        r@ == override_note(o@, i@),
{
    let mut s = String::new();
    s.append("OUT ");
    s.append(o);
    s.append(" overrides IN ");
    s.append(i);
    assert(s@ =~= override_note(o@, i@));
    s
}

/// The notes `OUT <o> overrides IN <i>` for every OUT entry that lies inside
/// an IN directory, in increasing order with no repetition. `in_dirs[k]` tells
/// whether the path of IN entry `k` is a directory on disk.
pub fn find_overrides(in_entries: &[String], out_entries: &[String], in_dirs: &[bool]) -> (r: Vec<String>)
    requires
        in_dirs@.len() == in_entries@.len(),
    ensures
        chars_strictly_sorted(strs(r@)),
        forall|t: Seq<char>| #[trigger] strs(r@).contains(t) <==> is_override_note(
            strs(in_entries@),
            strs(out_entries@),
            in_dirs@,
            t,
        ),
        forall|t: Seq<char>| #[trigger] strs(r@).contains(t) <==> exists|a: int, b: int|
            #![trigger out_entries@[a], in_entries@[b]]
            0 <= a < out_entries@.len() && 0 <= b < in_entries@.len()
                && !(out_entries@[a]@.contains('*') || out_entries@[a]@.contains('?') || out_entries@[a]@.contains('[') || out_entries@[a]@.contains('{'))
                && (forall|k: int| 0 <= k < in_entries@.len() ==> spec_normalize_entry(#[trigger] in_entries@[k]@) != spec_normalize_entry(out_entries@[a]@))
                && !(in_entries@[b]@.contains('*') || in_entries@[b]@.contains('?') || in_entries@[b]@.contains('[') || in_entries@[b]@.contains('{'))
                && ((in_entries@[b]@.len() > 0 && in_entries@[b]@.last() == '/') || in_dirs@[b])
                && spec_normalize_entry(in_entries@[b]@) != spec_normalize_entry(out_entries@[a]@)
                && is_component_prefix(components(spec_normalize_entry(in_entries@[b]@)), components(spec_normalize_entry(out_entries@[a]@)))
                && t == "OUT "@ + out_entries@[a]@ + " overrides IN "@ + in_entries@[b]@,
{
    let ghost ins = strs(in_entries@);
    let ghost outs = strs(out_entries@);
    let ghost dirs = in_dirs@;
    let conflicts = find_exact_conflicts(in_entries, out_entries);
    let mut notes: Vec<String> = Vec::new();
    let mut a: usize = 0;
    while a < out_entries.len()
        invariant
            0 <= a <= out_entries@.len(),
            ins == strs(in_entries@),
            outs == strs(out_entries@),
            dirs == in_dirs@,
            dirs.len() == ins.len(),
            forall|t: Seq<char>| #[trigger] strs(conflicts@).contains(t) <==> is_conflict(ins, outs, t),
            chars_strictly_sorted(strs(notes@)),
            forall|t: Seq<char>| #[trigger] strs(notes@).contains(t) <==> found_before(ins, outs, dirs, t, a as int, 0),
        decreases out_entries@.len() - a,
    {
        let o = &out_entries[a];
        assert(outs[a as int] == o@);
        proof {
            lemma_found_row(ins, outs, dirs, a as int);
        }
        let out_glob = looks_like_glob(o.as_str());
        let on = normalize_entry(o.as_str());
        proof {
            if has_normalized(ins, on@) {
                assert(spec_normalize_entry(outs[a as int]) == on@);
                assert(has_normalized(outs, on@));
            }
        }
        if !out_glob && !contains_text(&conflicts, &on) {
            let mut b: usize = 0;
            while b < in_entries.len()
                invariant
                    0 <= a < out_entries@.len(),
                    0 <= b <= in_entries@.len(),
                    ins == strs(in_entries@),
                    outs == strs(out_entries@),
                    dirs == in_dirs@,
                    dirs.len() == ins.len(),
                    outs[a as int] == o@,
                    on@ == spec_normalize_entry(o@),
                    !spec_looks_like_glob(o@),
                    !has_normalized(ins, on@),
                    chars_strictly_sorted(strs(notes@)),
                    forall|t: Seq<char>| #[trigger] strs(notes@).contains(t) <==> found_before(ins, outs, dirs, t, a as int, b as int),
                decreases in_entries@.len() - b,
            {
                let e = &in_entries[b];
                assert(ins[b as int] == e@);
                proof {
                    lemma_found_step(ins, outs, dirs, a as int, b as int);
                }
                let in_glob = looks_like_glob(e.as_str());
                let is_dir = is_directory_entry(e.as_str(), in_dirs[b]);
                let ghost hit = overrides(ins, outs, dirs, a as int, b as int);
                if !in_glob && is_dir {
                    let en = normalize_entry(e.as_str());
                    if !en.eq(&on) && path_starts_with(on.as_str(), en.as_str()) {
                        assert(hit);
                        let note = override_text(o.as_str(), e.as_str());
                        insert_sorted_text(&mut notes, note);
                    } else {
                        assert(!hit);
                    }
                } else {
                    assert(!hit);
                }
                b += 1;
            }
        } else {
            proof {
                assert forall|y: int| 0 <= y < ins.len() implies !#[trigger] overrides(ins, outs, dirs, a as int, y) by {
                    if !out_glob {
                        assert(is_conflict(ins, outs, on@));
                    }
                }
            }
        }
        a += 1;
    }
    proof {
        assert forall|t: Seq<char>| found_before(ins, outs, dirs, t, outs.len() as int, 0) <==> is_override_note(ins, outs, dirs, t) by {
            if is_override_note(ins, outs, dirs, t) {
                let (x, y) = choose|x: int, y: int|
                    0 <= x < outs.len() && 0 <= y < ins.len() && #[trigger] overrides(ins, outs, dirs, x, y)
                        && t == override_note(outs[x], ins[y]);
                assert(overrides(ins, outs, dirs, x, y));
            }
            if found_before(ins, outs, dirs, t, outs.len() as int, 0) {
                let (x, y) = choose|x: int, y: int|
                    0 <= x < outs.len() && 0 <= y < ins.len() && (x < outs.len() || (x == outs.len() && y < 0))
                        && #[trigger] overrides(ins, outs, dirs, x, y) && t == override_note(outs[x], ins[y]);
                assert(overrides(ins, outs, dirs, x, y));
            }
        }
        assert forall|t: Seq<char>| #[trigger] strs(notes@).contains(t) <==> exists|a: int, b: int|
            #![trigger out_entries@[a], in_entries@[b]]
            0 <= a < out_entries@.len() && 0 <= b < in_entries@.len()
                && !(out_entries@[a]@.contains('*') || out_entries@[a]@.contains('?') || out_entries@[a]@.contains('[') || out_entries@[a]@.contains('{'))
                && (forall|k: int| 0 <= k < in_entries@.len() ==> spec_normalize_entry(#[trigger] in_entries@[k]@) != spec_normalize_entry(out_entries@[a]@))
                && !(in_entries@[b]@.contains('*') || in_entries@[b]@.contains('?') || in_entries@[b]@.contains('[') || in_entries@[b]@.contains('{'))
                && ((in_entries@[b]@.len() > 0 && in_entries@[b]@.last() == '/') || in_dirs@[b])
                && spec_normalize_entry(in_entries@[b]@) != spec_normalize_entry(out_entries@[a]@)
                && is_component_prefix(components(spec_normalize_entry(in_entries@[b]@)), components(spec_normalize_entry(out_entries@[a]@)))
                && t == "OUT "@ + out_entries@[a]@ + " overrides IN "@ + in_entries@[b]@ by {
            lemma_overrides_characterized(ins, outs, dirs, t);
            if exists|a: int, b: int|
            #![trigger outs[a], ins[b]]
            0 <= a < outs.len() && 0 <= b < ins.len()
                && !(outs[a].contains('*') || outs[a].contains('?') || outs[a].contains('[') || outs[a].contains('{'))
                && (forall|k: int| 0 <= k < ins.len() ==> spec_normalize_entry(#[trigger] ins[k]) != spec_normalize_entry(outs[a]))
                && !(ins[b].contains('*') || ins[b].contains('?') || ins[b].contains('[') || ins[b].contains('{'))
                && ((ins[b].len() > 0 && ins[b].last() == '/') || dirs[b])
                && spec_normalize_entry(ins[b]) != spec_normalize_entry(outs[a])
                && is_component_prefix(components(spec_normalize_entry(ins[b])), components(spec_normalize_entry(outs[a])))
                && t == "OUT "@ + outs[a] + " overrides IN "@ + ins[b] {
                let (a, b) = choose|a: int, b: int|
                    #![trigger outs[a], ins[b]]
            0 <= a < outs.len() && 0 <= b < ins.len()
                && !(outs[a].contains('*') || outs[a].contains('?') || outs[a].contains('[') || outs[a].contains('{'))
                && (forall|k: int| 0 <= k < ins.len() ==> spec_normalize_entry(#[trigger] ins[k]) != spec_normalize_entry(outs[a]))
                && !(ins[b].contains('*') || ins[b].contains('?') || ins[b].contains('[') || ins[b].contains('{'))
                && ((ins[b].len() > 0 && ins[b].last() == '/') || dirs[b])
                && spec_normalize_entry(ins[b]) != spec_normalize_entry(outs[a])
                && is_component_prefix(components(spec_normalize_entry(ins[b])), components(spec_normalize_entry(outs[a])))
                && t == "OUT "@ + outs[a] + " overrides IN "@ + ins[b];
                assert(outs[a] == out_entries@[a]@ && ins[b] == in_entries@[b]@);
                assert forall|k: int| 0 <= k < in_entries@.len() implies spec_normalize_entry(#[trigger] in_entries@[k]@) != spec_normalize_entry(out_entries@[a]@) by {
                    assert(ins[k] == in_entries@[k]@);
                }
            }
            if exists|a: int, b: int|
            #![trigger out_entries@[a], in_entries@[b]]
            0 <= a < out_entries@.len() && 0 <= b < in_entries@.len()
                && !(out_entries@[a]@.contains('*') || out_entries@[a]@.contains('?') || out_entries@[a]@.contains('[') || out_entries@[a]@.contains('{'))
                && (forall|k: int| 0 <= k < in_entries@.len() ==> spec_normalize_entry(#[trigger] in_entries@[k]@) != spec_normalize_entry(out_entries@[a]@))
                && !(in_entries@[b]@.contains('*') || in_entries@[b]@.contains('?') || in_entries@[b]@.contains('[') || in_entries@[b]@.contains('{'))
                && ((in_entries@[b]@.len() > 0 && in_entries@[b]@.last() == '/') || in_dirs@[b])
                && spec_normalize_entry(in_entries@[b]@) != spec_normalize_entry(out_entries@[a]@)
                && is_component_prefix(components(spec_normalize_entry(in_entries@[b]@)), components(spec_normalize_entry(out_entries@[a]@)))
                && t == "OUT "@ + out_entries@[a]@ + " overrides IN "@ + in_entries@[b]@ {
                let (a, b) = choose|a: int, b: int|
                    #![trigger out_entries@[a], in_entries@[b]]
            0 <= a < out_entries@.len() && 0 <= b < in_entries@.len()
                && !(out_entries@[a]@.contains('*') || out_entries@[a]@.contains('?') || out_entries@[a]@.contains('[') || out_entries@[a]@.contains('{'))
                && (forall|k: int| 0 <= k < in_entries@.len() ==> spec_normalize_entry(#[trigger] in_entries@[k]@) != spec_normalize_entry(out_entries@[a]@))
                && !(in_entries@[b]@.contains('*') || in_entries@[b]@.contains('?') || in_entries@[b]@.contains('[') || in_entries@[b]@.contains('{'))
                && ((in_entries@[b]@.len() > 0 && in_entries@[b]@.last() == '/') || in_dirs@[b])
                && spec_normalize_entry(in_entries@[b]@) != spec_normalize_entry(out_entries@[a]@)
                && is_component_prefix(components(spec_normalize_entry(in_entries@[b]@)), components(spec_normalize_entry(out_entries@[a]@)))
                && t == "OUT "@ + out_entries@[a]@ + " overrides IN "@ + in_entries@[b]@;
                assert(outs[a] == out_entries@[a]@ && ins[b] == in_entries@[b]@);
                assert forall|k: int| 0 <= k < ins.len() implies spec_normalize_entry(#[trigger] ins[k]) != spec_normalize_entry(outs[a]) by {
                    assert(ins[k] == in_entries@[k]@);
                }
            }
        }
    }
    notes
}


/// The order `a` before-or-equal `b` of `String`.
pub open spec fn chars_le(a: Seq<char>, b: Seq<char>) -> bool {
    !chars_lt(b, a)
}

proof fn lemma_chars_le_total_ordering()
    ensures
        vstd::relations::total_ordering(|a: Seq<char>, b: Seq<char>| chars_le(a, b)),
{
    let leq = |a: Seq<char>, b: Seq<char>| chars_le(a, b);
    assert forall|x: Seq<char>| #[trigger] leq(x, x) by {
        lemma_chars_lt_irreflexive(x);
    }
    assert forall|x: Seq<char>, y: Seq<char>| #[trigger] leq(x, y) && #[trigger] leq(y, x) implies x == y by {
        lemma_chars_lt_total(x, y);
    }
    assert forall|x: Seq<char>, y: Seq<char>, z: Seq<char>| #[trigger] leq(x, y) && #[trigger] leq(y, z) implies leq(x, z) by {
        if chars_lt(z, x) {
            lemma_chars_lt_total(x, y);
            if x == y {
            } else {
                lemma_chars_lt_transitive(z, x, y);
            }
        }
    }
    assert forall|x: Seq<char>, y: Seq<char>| #[trigger] leq(x, y) || #[trigger] leq(y, x) by {
        if chars_lt(y, x) && chars_lt(x, y) {
            lemma_chars_lt_transitive(x, y, x);
            lemma_chars_lt_irreflexive(x);
        }
    }
}

proof fn lemma_without_normalized_sorted(s: Seq<Seq<char>>, n: Seq<char>)
    requires
        chars_sorted(s),
    ensures
        chars_sorted(without_normalized(s, n)),
        forall|x: Seq<char>| #[trigger] without_normalized(s, n).contains(x) ==> s.contains(x),
    decreases s.len(),
{
    if s.len() > 0 {
        let d = s.drop_last();
        assert(chars_sorted(d)) by {
            assert forall|i: int, j: int| 0 <= i < j < d.len() implies !chars_lt(#[trigger] d[j], #[trigger] d[i]) by {
                assert(d[i] == s[i] && d[j] == s[j]);
            }
        }
        lemma_without_normalized_sorted(d, n);
        let r = without_normalized(d, n);
        assert forall|x: Seq<char>| #[trigger] d.contains(x) implies s.contains(x) by {
            let i = choose|i: int| 0 <= i < d.len() && d[i] == x;
            assert(s[i] == x);
        }
        if spec_normalize_entry(s.last()) != n {
            let w = r.push(s.last());
            assert forall|i: int, j: int| 0 <= i < j < w.len() implies !chars_lt(#[trigger] w[j], #[trigger] w[i]) by {
                if j == w.len() - 1 {
                    assert(r.contains(w[i]));
                    let k = choose|k: int| 0 <= k < s.len() && s[k] == w[i];
                    if k < s.len() - 1 {
                        assert(!chars_lt(s[s.len() - 1], s[k]));
                    } else {
                        lemma_chars_lt_irreflexive(s[k]);
                    }
                } else {
                    assert(w[i] == r[i] && w[j] == r[j]);
                }
            }
            assert forall|x: Seq<char>| #[trigger] w.contains(x) implies s.contains(x) by {
                let i = choose|i: int| 0 <= i < w.len() && w[i] == x;
                if i < r.len() {
                    assert(r[i] == x);
                    assert(r.contains(x));
                } else {
                    assert(s[s.len() - 1] == x);
                }
            }
        }
    }
}

proof fn lemma_without_normalized_count(s: Seq<Seq<char>>, n: Seq<char>, x: Seq<char>)
    ensures
        without_normalized(s, n).to_multiset().count(x) == if spec_normalize_entry(x) == n {
            0
        } else {
            s.to_multiset().count(x)
        },
    decreases s.len(),
{
    broadcast use vstd::multiset::group_multiset_axioms;
    broadcast use vstd::seq_lib::group_to_multiset_ensures;

    if s.len() == 0 {
        assert(without_normalized(s, n) =~= s);
        assert(s.to_multiset() =~= vstd::multiset::Multiset::<Seq<char>>::empty());
    } else {
        let d = s.drop_last();
        lemma_without_normalized_count(d, n, x);
        assert(d.push(s.last()) =~= s);
        vstd::seq_lib::to_multiset_build(d, s.last());
        let r = without_normalized(d, n);
        if spec_normalize_entry(s.last()) != n {
            vstd::seq_lib::to_multiset_build(r, s.last());
        }
    }
}

/// Adding an entry that no entry matches, then removing it, gives back the
/// list it was added to, when that list was sorted; nothing else changes.
/// `added` is what `add_scope_entry` left, `removed` what `remove_scope_entry`
/// then left, both for `target` and `p`.
pub proof fn lemma_remove_undoes_add(
    before: ScopeConfig,
    added: ScopeConfig,
    removed: ScopeConfig,
    target: ScopeTarget,
    p: Seq<char>,
)
    requires
        chars_sorted(entries_of(before, target)),
        trim(p).len() > 0,
        !has_normalized(entries_of(before, target), spec_normalize_entry(trim(p))),
        same_but_list(before, added, target),
        entries_of(added, target).to_multiset() == entries_of(before, target).push(
            trim(p),
        ).to_multiset(),
        same_but_list(added, removed, target),
        entries_of(removed, target) == without_normalized(
            entries_of(added, target),
            spec_normalize_entry(trim(p)),
        ),
        chars_sorted(entries_of(added, target)),
    ensures
        entries_of(removed, target) == entries_of(before, target),
        same_but_list(before, removed, target),
{
    broadcast use vstd::multiset::group_multiset_axioms;

    let old_list = entries_of(before, target);
    let mid = entries_of(added, target);
    let n = spec_normalize_entry(trim(p));
    let t = trim(p);
    let w = without_normalized(mid, n);
    lemma_without_normalized_sorted(mid, n);
    assert(w.to_multiset() =~= old_list.to_multiset()) by {
        assert forall|x: Seq<char>| #[trigger] w.to_multiset().count(x) == old_list.to_multiset().count(x) by {
            lemma_without_normalized_count(mid, n, x);
            vstd::seq_lib::to_multiset_build(old_list, t);
            if spec_normalize_entry(x) == n {
                vstd::seq_lib::to_multiset_contains(old_list, x);
                if old_list.contains(x) {
                    let i = choose|i: int| 0 <= i < old_list.len() && old_list[i] == x;
                    assert(spec_normalize_entry(old_list[i]) == n);
                }
            } else {
                assert(x != t);
            }
        }
    }
    lemma_chars_le_total_ordering();
    let leq = |a: Seq<char>, b: Seq<char>| chars_le(a, b);
    assert(vstd::relations::sorted_by(w, leq));
    assert(vstd::relations::sorted_by(old_list, leq));
    vstd::seq_lib::lemma_sorted_unique(w, old_list, leq);
}

} // verus!
