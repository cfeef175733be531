//! Scope markers: the comment line `@scope` at the top of a file (or just
//! after its shebang line), which style of comment a file takes, and how a
//! marker is added to and removed from a file's text.
use vstd::prelude::*;
use crate::text::{
    chars_of, find_char, first_index, join_lines, join_with_newline, lemma_first_index_bound,
    lemma_join_lines_of, lemma_lines_after_line, lines, range_eq, range_starts_with,
    split_lines, starts_with, string_of, strip_cr, strs, trim, trim_bounds,
};
use crate::paths::{extension, file_name, path_components, path_extension};

verus! {

broadcast use vstd::string::group_string_axioms;

/// The texts that a trimmed line may have to be a scope marker.
pub open spec fn is_marker_text(t: Seq<char>) -> bool {
    ||| t == "// @scope"@
    ||| t == "//@scope"@
    ||| t == "# @scope"@
    ||| t == "#@scope"@
    ||| t == "-- @scope"@
    ||| t == "--@scope"@
    ||| t == "/* @scope */"@
    ||| t == "/*@scope*/"@
    ||| t == "<!-- @scope -->"@
    ||| t == "<!--@scope-->"@
}

/// Whether a line is a scope marker once trimmed.
pub open spec fn is_marker_line(line: Seq<char>) -> bool {
    is_marker_text(trim(line))
}

/// Whether a text carries a scope marker: on its first line, or on its second
/// line when the first is a shebang (`#!`).
pub open spec fn spec_has_scope_marker(c: Seq<char>) -> bool {
    let ls = lines(c);
    ls.len() > 0 && (is_marker_line(ls[0]) || (starts_with(ls[0], "#!"@) && ls.len() > 1
        && is_marker_line(ls[1])))
}

/// The text with the marker line added, and whether it changed: unchanged when
/// a marker is present; after the shebang line when the text starts with `#!`;
/// at the top otherwise.
pub open spec fn spec_apply_scope_marker(c: Seq<char>, m: Seq<char>) -> (Seq<char>, bool) {
    if spec_has_scope_marker(c) {
        (c, false)
    } else if starts_with(c, "#!"@) {
        let k = first_index(c, '\n');
        if k < c.len() {
            (c.take(k + 1 as int) + m + seq!['\n'] + c.skip(k + 1 as int), true)
        } else {
            (c + seq!['\n'] + m + seq!['\n'], true)
        }
    } else {
        (m + seq!['\n'] + c, true)
    }
}

/// The lines left after removing the marker, joined again, with a final
/// newline when the text had one and something is left.
pub open spec fn rejoin(c: Seq<char>, rest: Seq<Seq<char>>) -> Seq<char> {
    let out = join_lines(rest);
    if c.len() > 0 && c.last() == '\n' && out.len() > 0 {
        out.push('\n')
    } else {
        out
    }
}

/// The text with its marker line removed, and whether it changed.
pub open spec fn spec_remove_scope_marker(c: Seq<char>) -> (Seq<char>, bool) {
    let ls = lines(c);
    if ls.len() == 0 {
        (c, false)
    } else if is_marker_line(ls[0]) {
        (rejoin(c, ls.drop_first()), true)
    } else if starts_with(ls[0], "#!"@) && ls.len() > 1 && is_marker_line(ls[1]) {
        (rejoin(c, ls.remove(1)), true)
    } else {
        (c, false)
    }
}

/// The code point of the ASCII lower case of `c` (`char::to_ascii_lowercase`).
pub open spec fn lower_code(c: char) -> int {
    if 'A' <= c <= 'Z' {
        (c as int) + 32
    } else {
        c as int
    }
}

/// Whether the ASCII lower case of `x` is the text `lit`
/// (`x.to_ascii_lowercase() == lit`).
pub open spec fn lowercase_is(x: Seq<char>, lit: Seq<char>) -> bool {
    x.len() == lit.len() && forall|j: int| 0 <= j < x.len() ==> lower_code(#[trigger] x[j]) == (lit[j] as int)
}

/// Extensions whose files take `// @scope`.
pub open spec fn is_slash_ext(e: Seq<char>) -> bool {
    lowercase_is(e, "rs"@) || lowercase_is(e, "js"@) || lowercase_is(e, "ts"@) || lowercase_is(e, "jsx"@) || lowercase_is(e, "tsx"@) || lowercase_is(e, "sol"@) || lowercase_is(e, "c"@) || lowercase_is(e, "cpp"@) || lowercase_is(e, "h"@) || lowercase_is(e, "hpp"@) || lowercase_is(e, "java"@) || lowercase_is(e, "go"@) || lowercase_is(e, "swift"@) || lowercase_is(e, "kt"@)
}

/// Extensions whose files take `# @scope`.
pub open spec fn is_hash_ext(e: Seq<char>) -> bool {
    lowercase_is(e, "py"@) || lowercase_is(e, "sh"@) || lowercase_is(e, "bash"@) || lowercase_is(e, "zsh"@) || lowercase_is(e, "rb"@) || lowercase_is(e, "yml"@) || lowercase_is(e, "yaml"@) || lowercase_is(e, "toml"@)
}

/// Extensions whose files take `-- @scope`.
pub open spec fn is_dash_ext(e: Seq<char>) -> bool {
    lowercase_is(e, "sql"@) || lowercase_is(e, "lua"@)
}

/// Extensions whose files take `<!-- @scope -->`.
pub open spec fn is_markup_ext(e: Seq<char>) -> bool {
    lowercase_is(e, "html"@) || lowercase_is(e, "xml"@) || lowercase_is(e, "md"@)
}

/// The marker of a file whose extension tells nothing: `# @scope` for a
/// script with a shebang line, none otherwise.
pub open spec fn shebang_marker(content: Seq<char>) -> Option<Seq<char>> {
    if starts_with(content, "#!"@) {
        Some("# @scope"@)
    } else {
        None
    }
}

/// The marker for a file, chosen by its (ASCII lower-cased) extension, with
/// `json` files left unmarked and the shebang fallback for the rest.
pub open spec fn spec_marker_for_file(path: Seq<char>, content: Seq<char>) -> Option<Seq<char>> {
    match extension(path) {
        Some(x) => {
            let e = x;
            if is_slash_ext(e) {
                Some("// @scope"@)
            } else if is_hash_ext(e) {
                Some("# @scope"@)
            } else if is_dash_ext(e) {
                Some("-- @scope"@)
            } else if lowercase_is(e, "css"@) {
                Some("/* @scope */"@)
            } else if is_markup_ext(e) {
                Some("<!-- @scope -->"@)
            } else if lowercase_is(e, "json"@) {
                None
            } else {
                shebang_marker(content)
            }
        },
        None => shebang_marker(content),
    }
}

/// Whether the file is a system file that is never read (`.DS_Store`).
pub open spec fn spec_is_system_file(path: Seq<char>) -> bool {
    file_name(path) == Some(".DS_Store"@)
}

/// Whether `v[lo..hi]` is one of the marker texts.
fn range_is_marker_text(v: &Vec<char>, lo: usize, hi: usize) -> (r: bool)
    requires
        lo <= hi <= v.len(),
    ensures
        r == is_marker_text(v@.subrange(lo as int, hi as int)),
{
    range_eq(v, lo, hi, "// @scope") || range_eq(v, lo, hi, "//@scope") || range_eq(
        v,
        lo,
        hi,
        "# @scope",
    ) || range_eq(v, lo, hi, "#@scope") || range_eq(v, lo, hi, "-- @scope") || range_eq(
        v,
        lo,
        hi,
        "--@scope",
    ) || range_eq(v, lo, hi, "/* @scope */") || range_eq(v, lo, hi, "/*@scope*/") || range_eq(
        v,
        lo,
        hi,
        "<!-- @scope -->",
    ) || range_eq(v, lo, hi, "<!--@scope-->")
}

/// Whether the line, trimmed, is a scope marker.
pub fn line_is_scope_marker(line: &str) -> (r: bool)
    ensures
        r == is_marker_line(line@),
{
    let v = chars_of(line);
    let (lo, hi) = trim_bounds(&v, 0, v.len());
    assert(v@.subrange(0, v@.len() as int) =~= v@);
    range_is_marker_text(&v, lo, hi)
}

/// Whether the text starts with `lit`.
fn text_starts_with(s: &str, lit: &str) -> (r: bool)
    ensures
        r == starts_with(s@, lit@),
{
    let v = chars_of(s);
    assert(v@.subrange(0, v@.len() as int) =~= v@);
    range_starts_with(&v, 0, v.len(), lit)
}

/// Whether the text carries a scope marker on its first line, or on its
/// second line after a shebang line.
pub fn has_scope_marker(content: &str) -> (r: bool)
    ensures
        r == spec_has_scope_marker(content@),
{
    let ls = split_lines(content);
    if ls.len() == 0 {
        return false;
    }
    assert(strs(ls@)[0] == ls@[0]@);
    if line_is_scope_marker(ls[0].as_str()) {
        return true;
    }
    if text_starts_with(ls[0].as_str(), "#!") {
        if ls.len() > 1 {
            assert(strs(ls@)[1] == ls@[1]@);
            return line_is_scope_marker(ls[1].as_str());
        }
    }
    false
}

/// The text with `marker` added as a line of its own (after the shebang line
/// when there is one), and whether it changed; a text that already carries a
/// marker is returned unchanged.
pub fn apply_scope_marker(content: &str, marker: &str) -> (r: (String, bool))
    ensures
        (r.0@, r.1) == spec_apply_scope_marker(content@, marker@),
{
    if has_scope_marker(content) {
        return (content.to_owned(), false);
    }
    let v = chars_of(content);
    assert(v@.subrange(0, v@.len() as int) =~= v@);
    if range_starts_with(&v, 0, v.len(), "#!") {
        let k = find_char(&v, '\n');
        if k < v.len() {
            let mut out = string_of(&v, 0, k + 1);
            out.append(marker);
            out.push('\n');
            let tail = string_of(&v, k + 1, v.len());
            out.append(tail.as_str());
            assert(v@.subrange(0, k + 1) =~= v@.take(k + 1));
            assert(v@.subrange(k + 1, v@.len() as int) =~= v@.skip(k + 1));
            (out, true)
        } else {
            let mut out = content.to_owned();
            out.push('\n');
            out.append(marker);
            out.push('\n');
            (out, true)
        }
    } else {
        let mut out = marker.to_owned();
        out.push('\n');
        out.append(content);
        (out, true)
    }
}

/// The remaining lines joined again, with a final newline when `content`
/// ended with one and something is left.
fn rejoin_lines(content: &Vec<char>, rest: &Vec<String>) -> (r: String)
    ensures
        r@ == rejoin(content@, strs(rest@)),
{
    let mut out = join_with_newline(rest);
    let n = content.len();
    let had_trailing_newline = n > 0 && content[n - 1] == '\n';
    if had_trailing_newline && chars_of(out.as_str()).len() > 0 {
        out.push('\n');
    }
    out
}

/// The text with its scope marker line removed (the first line, or the
/// second after a shebang line), and whether it changed. The remaining lines
/// are joined with `'\n'`.
pub fn remove_scope_marker(content: &str) -> (r: (String, bool))
    ensures
        (r.0@, r.1) == spec_remove_scope_marker(content@),
{
    let v = chars_of(content);
    let mut ls = split_lines(content);
    let ghost all = strs(ls@);
    if ls.len() == 0 {
        return (content.to_owned(), false);
    }
    assert(all[0] == ls@[0]@);
    if line_is_scope_marker(ls[0].as_str()) {
        ls.remove(0);
        assert(strs(ls@) =~= all.drop_first());
        return (rejoin_lines(&v, &ls), true);
    }
    if text_starts_with(ls[0].as_str(), "#!") && ls.len() > 1 && line_is_scope_marker(
        ls[1].as_str(),
    ) {
        assert(all[1] == ls@[1]@);
        ls.remove(1);
        assert(strs(ls@) =~= all.remove(1));
        return (rejoin_lines(&v, &ls), true);
    }
    proof {
        if ls.len() > 1 {
            assert(all[1] == ls@[1]@);
        }
    }
    (content.to_owned(), false)
}

proof fn lemma_char_code_range(c: char)
    ensures
        0 <= c as int <= 0x10FFFF,
{
}

/// Whether the ASCII lower case of `x` is the text `lit`.
fn lowercase_eq(x: &Vec<char>, lit: &str) -> (r: bool)
    ensures
        r == lowercase_is(x@, lit@),
{
    let w = chars_of(lit);
    if x.len() != w.len() {
        return false;
    }
    let mut i: usize = 0;
    while i < x.len()
        invariant
            x.len() == w.len(),
            w@ == lit@,
            0 <= i <= x.len(),
            forall|j: int| 0 <= j < i ==> lower_code(#[trigger] x@[j]) == (w@[j] as int),
        decreases x.len() - i,
    {
        let c = x[i];
        let l = w[i];
        proof {
            lemma_char_code_range(c);
            lemma_char_code_range(l);
        }
        let cu = c as u32;
        let lu = l as u32;
        let same = if 'A' <= c && c <= 'Z' {
            cu + 32 == lu
        } else {
            cu == lu
        };
        if !same {
            assert(lower_code(x@[i as int]) != (lit@[i as int] as int));
            return false;
        }
        i += 1;
    }
    true
}

/// The marker for the file: by its extension (ASCII case ignored), none for
/// `json`, and `# @scope` for any other file whose text starts with `#!`.
pub fn marker_for_file(path: &str, content: &str) -> (r: Option<&'static str>)
    ensures
        match r {
            Some(m) => spec_marker_for_file(path@, content@) == Some(m@),
            None => spec_marker_for_file(path@, content@).is_none(),
        },
{
    let shebang = text_starts_with(content, "#!");
    match path_extension(path) {
        Some(ext) => {
            let e = chars_of(ext.as_str());
            if lowercase_eq(&e, "rs") || lowercase_eq(&e, "js") || lowercase_eq(&e, "ts")
                || lowercase_eq(&e, "jsx") || lowercase_eq(&e, "tsx") || lowercase_eq(&e, "sol")
                || lowercase_eq(&e, "c") || lowercase_eq(&e, "cpp") || lowercase_eq(&e, "h")
                || lowercase_eq(&e, "hpp") || lowercase_eq(&e, "java") || lowercase_eq(&e, "go")
                || lowercase_eq(&e, "swift") || lowercase_eq(&e, "kt") {
                Some("// @scope")
            } else if lowercase_eq(&e, "py") || lowercase_eq(&e, "sh") || lowercase_eq(&e, "bash")
                || lowercase_eq(&e, "zsh") || lowercase_eq(&e, "rb") || lowercase_eq(&e, "yml")
                || lowercase_eq(&e, "yaml") || lowercase_eq(&e, "toml") {
                Some("# @scope")
            } else if lowercase_eq(&e, "sql") || lowercase_eq(&e, "lua") {
                Some("-- @scope")
            } else if lowercase_eq(&e, "css") {
                Some("/* @scope */")
            } else if lowercase_eq(&e, "html") || lowercase_eq(&e, "xml") || lowercase_eq(&e, "md") {
                Some("<!-- @scope -->")
            } else if lowercase_eq(&e, "json") {
                None
            } else if shebang {
                Some("# @scope")
            } else {
                None
            }
        },
        None => {
            if shebang {
                Some("# @scope")
            } else {
                None
            }
        },
    }
}

/// Whether the file is a system file (`.DS_Store`), which is never read.
pub fn is_system_file(path: &str) -> (r: bool)
    ensures
        r == spec_is_system_file(path@),
{
    let cs = path_components(path);
    if cs.len() == 0 {
        return false;
    }
    let last = &cs[cs.len() - 1];
    assert(strs(cs@).last() == last@);
    let v = chars_of(last.as_str());
    assert(v@.subrange(0, v@.len() as int) =~= v@);
    let r = range_eq(&v, 0, v.len(), ".DS_Store");
    proof {
        if last@ == seq!['/'] || last@ == seq!['.'] || last@ == seq!['.', '.'] {
            assert(last@.len() <= 2);
            assert(".DS_Store"@.len() == 9) by {
                reveal_strlit(".DS_Store");
            }
        }
    }
    r
}


/// A marker that fits on one line: a marker line with no `'\n'`.
pub open spec fn is_one_line_marker(m: Seq<char>) -> bool {
    is_marker_line(m) && !m.contains('\n')
}

/// A marker line stays a marker line without a final `'\r'`.
pub proof fn lemma_strip_cr_marker(m: Seq<char>)
    requires
        is_marker_line(m),
    ensures
        is_marker_line(strip_cr(m)),
{
    if m.len() > 0 && m.last() == '\r' {
        crate::text::lemma_trim_drop_trailing_ws(m);
    }
}

proof fn lemma_shebang_chars(c: Seq<char>)
    requires
        starts_with(c, "#!"@),
    ensures
        c.len() >= 2,
        c[0] == '#',
        c[1] == '!',
        first_index(c, '\n') >= 2,
{
    reveal_strlit("#!");
    assert(c.take(2)[0] == c[0] && c.take(2)[1] == c[1]);
    lemma_first_index_bound(c, '\n');
    if first_index(c, '\n') < 2 {
        assert(c[first_index(c, '\n') as int] == '\n');
    }
}

proof fn lemma_shebang_line(l: Seq<char>)
    requires
        l.len() >= 2,
        l[0] == '#',
        l[1] == '!',
    ensures
        starts_with(strip_cr(l), "#!"@),
{
    reveal_strlit("#!");
    let t = strip_cr(l);
    if l.len() == 2 {
        assert(t == l);
    }
    assert(t.take(2) =~= "#!"@);
}

/// Adding a one-line marker leaves the text marked.
pub proof fn lemma_apply_marks(c: Seq<char>, m: Seq<char>)
    requires
        is_one_line_marker(m),
    ensures
        spec_has_scope_marker(spec_apply_scope_marker(c, m).0),
{
    let empty = Seq::<char>::empty();
    lemma_strip_cr_marker(m);
    if spec_has_scope_marker(c) {
    } else if starts_with(c, "#!"@) {
        lemma_shebang_chars(c);
        let k = first_index(c, '\n');
        lemma_first_index_bound(c, '\n');
        if k < c.len() {
            let l = c.take(k as int);
            let rest = c.skip(k + 1 as int);
            let new = spec_apply_scope_marker(c, m).0;
            assert(new =~= l + seq!['\n'] + (m + seq!['\n'] + rest));
            assert(!l.contains('\n'));
            lemma_lines_after_line(l, m + seq!['\n'] + rest);
            lemma_lines_after_line(m, rest);
            lemma_shebang_line(l);
        } else {
            let new = spec_apply_scope_marker(c, m).0;
            assert(!c.contains('\n'));
            assert(new =~= c + seq!['\n'] + (m + seq!['\n'] + empty));
            lemma_lines_after_line(c, m + seq!['\n'] + empty);
            lemma_lines_after_line(m, empty);
            lemma_shebang_line(c);
        }
    } else {
        let new = spec_apply_scope_marker(c, m).0;
        assert(new =~= m + seq!['\n'] + c);
        lemma_lines_after_line(m, c);
    }
}

/// Adding a one-line marker twice changes the text once.
pub proof fn lemma_apply_idempotent(c: Seq<char>, m: Seq<char>)
    requires
        is_one_line_marker(m),
    ensures
        spec_apply_scope_marker(spec_apply_scope_marker(c, m).0, m) == (
            spec_apply_scope_marker(c, m).0,
            false,
        ),
{
    lemma_apply_marks(c, m);
}

/// Removing the marker from a text that has none changes nothing.
pub proof fn lemma_remove_unmarked(c: Seq<char>)
    requires
        !spec_has_scope_marker(c),
    ensures
        spec_remove_scope_marker(c) == (c, false),
{
}

/// Removing the marker undoes adding it, for a text without marker and
/// without `'\r'`, other than a lone newline or a shebang line with no
/// newline after it.
pub proof fn lemma_remove_undoes_apply(c: Seq<char>, m: Seq<char>)
    requires
        is_one_line_marker(m),
        !spec_has_scope_marker(c),
        !c.contains('\r'),
        c != seq!['\n'],
        !(starts_with(c, "#!"@) && !c.contains('\n')),
    ensures
        spec_remove_scope_marker(spec_apply_scope_marker(c, m).0) == (c, true),
{
    lemma_strip_cr_marker(m);
    lemma_join_lines_of(c);
    let new = spec_apply_scope_marker(c, m).0;
    if starts_with(c, "#!"@) {
        lemma_shebang_chars(c);
        let k = first_index(c, '\n');
        lemma_first_index_bound(c, '\n');
        if k >= c.len() {
            assert forall|j: int| 0 <= j < c.len() implies c[j] != '\n' by {}
            assert(!c.contains('\n'));
        }
        let l = c.take(k as int);
        let rest = c.skip(k + 1 as int);
        assert(new =~= l + seq!['\n'] + (m + seq!['\n'] + rest));
        assert(!l.contains('\n'));
        if l.len() > 0 && l.last() == '\r' {
            assert(c[k - 1] == '\r');
        }
        assert(strip_cr(l) == l);
        lemma_lines_after_line(l, m + seq!['\n'] + rest);
        lemma_lines_after_line(m, rest);
        assert(c =~= l + seq!['\n'] + rest);
        lemma_lines_after_line(l, rest);
        lemma_shebang_line(l);
        let ls = lines(new);
        assert(ls == seq![l] + (seq![strip_cr(m)] + lines(rest)));
        assert(lines(c) == seq![l] + lines(rest));
        assert(!is_marker_line(l));
        assert(ls.remove(1) =~= lines(c));
        if rest.len() == 0 {
            assert(new.last() == '\n');
            assert(c.last() == '\n');
        } else {
            assert(new.last() == rest.last());
            assert(c.last() == rest.last());
        }
        if c.last() == '\n' {
            assert(c.drop_last().len() >= 2);
            assert(c.drop_last().push('\n') =~= c);
        }
    } else {
        assert(new =~= m + seq!['\n'] + c);
        lemma_lines_after_line(m, c);
        let ls = lines(new);
        assert(ls.drop_first() =~= lines(c));
        if c.len() == 0 {
            assert(new.last() == '\n');
        } else {
            assert(new.last() == c.last());
            if c.last() == '\n' {
                if c.len() == 1 {
                    assert(c =~= seq!['\n']);
                }
                assert(c.drop_last().push('\n') =~= c);
            }
        }
    }
}

proof fn lemma_one_line_marker_text(t: Seq<char>)
    requires
        is_marker_text(t),
        t.len() > 0,
        !crate::text::is_ws(t[0]),
        !crate::text::is_ws(t.last()),
        forall|j: int| 0 <= j < t.len() ==> t[j] != '\n' && t[j] != '\r',
    ensures
        is_one_line_marker(t),
{
    assert(crate::text::trim_start(t) == t);
    assert(crate::text::trim_end(t) == t);
}

/// The markers that files take are one-line markers.
pub proof fn lemma_file_markers_are_one_line()
    ensures
        is_one_line_marker("// @scope"@),
        is_one_line_marker("# @scope"@),
        is_one_line_marker("-- @scope"@),
        is_one_line_marker("/* @scope */"@),
        is_one_line_marker("<!-- @scope -->"@),
{
    reveal_strlit("// @scope");
    reveal_strlit("# @scope");
    reveal_strlit("-- @scope");
    reveal_strlit("/* @scope */");
    reveal_strlit("<!-- @scope -->");
    lemma_one_line_marker_text("// @scope"@);
    lemma_one_line_marker_text("# @scope"@);
    lemma_one_line_marker_text("-- @scope"@);
    lemma_one_line_marker_text("/* @scope */"@);
    lemma_one_line_marker_text("<!-- @scope -->"@);
}

} // verus!
