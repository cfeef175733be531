//! The model of Unix paths as `std::path` reads them: a path is the sequence
//! of its components, each written as its text (`"/"` for the root, `"."`
//! for a leading current directory, `".."` for a parent, and a name
//! otherwise). Normalising, relativising, ordering and testing paths are
//! stated and proved over that sequence.
use vstd::prelude::*;
use crate::text::{
    chars_lt, chars_of, first_index, lemma_chars_lt_irreflexive, lemma_chars_lt_total,
    lemma_chars_lt_transitive, lemma_first_index_at, str_lt, string_of, strs,
};

verus! {

broadcast use vstd::string::group_string_axioms;

/// The pieces of `s` between occurrences of `c` (`str::split`).
pub open spec fn split_on(s: Seq<char>, c: char) -> Seq<Seq<char>>
    decreases s.len(),
{
    let k = first_index(s, c);
    if k >= s.len() {
        seq![s]
    } else {
        seq![s.take(k as int)] + split_on(s.skip(k + 1 as int), c)
    }
}

/// The component texts of path segments: empty segments and `"."` are dropped.
pub open spec fn segment_components(segs: Seq<Seq<char>>) -> Seq<Seq<char>>
    decreases segs.len(),
{
    if segs.len() == 0 {
        seq![]
    } else {
        let g = segs[0];
        let rest = segment_components(segs.drop_first());
        if g.len() == 0 || g == seq!['.'] {
            rest
        } else {
            seq![g] + rest
        }
    }
}

/// The components of a Unix path (`Path::components`), each as its text:
/// `"/"` for a leading root, `"."` when the path begins with `"./"` or is
/// `"."`, `".."` for a parent and the name otherwise. Repeated separators
/// and inner `"."` segments produce no component.
pub open spec fn components(s: Seq<char>) -> Seq<Seq<char>> {
    let segs = split_on(s, '/');
    if s.len() > 0 && s[0] == '/' {
        seq![seq!['/']] + segment_components(segs)
    } else if segs[0] == seq!['.'] {
        seq![seq!['.']] + segment_components(segs.drop_first())
    } else {
        segment_components(segs)
    }
}

/// Whether a component text is the root, the current or the parent directory.
pub open spec fn is_special_component(c: Seq<char>) -> bool {
    c == seq!['/'] || c == seq!['.'] || c == seq!['.', '.']
}

/// Whether `p` starts with the components `q` (`Path::starts_with`).
pub open spec fn is_component_prefix(q: Seq<Seq<char>>, p: Seq<Seq<char>>) -> bool {
    q.len() <= p.len() && p.take(q.len() as int) == q
}

/// The text of a path buffer after `PathBuf::push` of one component.
pub open spec fn push_component(buf: Seq<char>, c: Seq<char>) -> Seq<char> {
    if c == seq!['/'] {
        c
    } else if buf.len() > 0 && buf.last() != '/' {
        buf + seq!['/'] + c
    } else {
        buf + c
    }
}

/// The text of a path built by pushing the components `cs` onto an empty `PathBuf`.
pub open spec fn render(cs: Seq<Seq<char>>) -> Seq<char>
    decreases cs.len(),
{
    if cs.len() == 0 {
        seq![]
    } else {
        push_component(render(cs.drop_last()), cs.last())
    }
}

/// The components without a leading current directory.
pub open spec fn drop_cur_dir(cs: Seq<Seq<char>>) -> Seq<Seq<char>> {
    if cs.len() > 0 && cs[0] == seq!['.'] {
        cs.drop_first()
    } else {
        cs
    }
}

/// A path rebuilt from its components without current-directory components.
pub open spec fn spec_normalize_rel_path(p: Seq<char>) -> Seq<char> {
    render(drop_cur_dir(components(p)))
}

/// Whether the path is absolute (on Unix: it has a root).
pub open spec fn is_absolute(p: Seq<char>) -> bool {
    p.len() > 0 && p[0] == '/'
}

/// A path made relative to the working directory `cwd` when it is absolute and
/// lies under `cwd`, then normalised.
pub open spec fn spec_relativize(p: Seq<char>, cwd: Option<Seq<char>>) -> Seq<char> {
    let cs = components(p);
    match cwd {
        Some(c) => if is_absolute(p) && is_component_prefix(components(c), cs) {
            render(drop_cur_dir(cs.skip(components(c).len() as int)))
        } else {
            render(drop_cur_dir(cs))
        },
        None => render(drop_cur_dir(cs)),
    }
}

/// The final component of a path when it is a name (`Path::file_name`).
pub open spec fn file_name(p: Seq<char>) -> Option<Seq<char>> {
    let cs = components(p);
    if cs.len() > 0 && !is_special_component(cs.last()) {
        Some(cs.last())
    } else {
        None
    }
}

/// The index of the last occurrence of `c` in `s`, or -1.
pub open spec fn last_index(s: Seq<char>, c: char) -> int
    decreases s.len(),
{
    if s.len() == 0 {
        -1
    } else if s.last() == c {
        s.len() - 1
    } else {
        last_index(s.drop_last(), c)
    }
}

/// The extension of a path (`Path::extension`): what follows the last `'.'` of
/// the file name, when that `'.'` is not its first character.
pub open spec fn extension(p: Seq<char>) -> Option<Seq<char>> {
    match file_name(p) {
        Some(n) => {
            let k = last_index(n, '.');
            if k > 0 {
                Some(n.skip(k + 1))
            } else {
                None
            }
        },
        None => None,
    }
}

/// The names of directories that traversal skips.
pub open spec fn is_ignored_name(c: Seq<char>) -> bool {
    c == ".git"@ || c == "node_modules"@ || c == "target"@
}

/// Whether some component of the path is an ignored directory name.
pub open spec fn spec_is_ignored_path(p: Seq<char>) -> bool {
    exists|i: int| 0 <= i < components(p).len() && is_ignored_name(#[trigger] components(p)[i])
}

/// The rank of a component in the order of `std::path::Component`.
pub open spec fn component_rank(c: Seq<char>) -> int {
    if c == seq!['/'] {
        0
    } else if c == seq!['.'] {
        1
    } else if c == seq!['.', '.'] {
        2
    } else {
        3
    }
}

/// The strict order of components.
pub open spec fn component_lt(a: Seq<char>, b: Seq<char>) -> bool {
    if component_rank(a) != component_rank(b) {
        component_rank(a) < component_rank(b)
    } else {
        component_rank(a) == 3 && chars_lt(a, b)
    }
}

/// The strict lexicographic order of component sequences.
pub open spec fn components_lt(a: Seq<Seq<char>>, b: Seq<Seq<char>>) -> bool
    decreases a.len(),
{
    if a.len() == 0 {
        b.len() > 0
    } else if b.len() == 0 {
        false
    } else if a[0] != b[0] {
        component_lt(a[0], b[0])
    } else {
        components_lt(a.drop_first(), b.drop_first())
    }
}

/// The strict order of paths (`Ord for Path`): by their components.
pub open spec fn path_lt(a: Seq<char>, b: Seq<char>) -> bool {
    components_lt(components(a), components(b))
}

/// Whether two paths are equal as `Path` values: same components.
pub open spec fn path_eq(a: Seq<char>, b: Seq<char>) -> bool {
    components(a) == components(b)
}

pub proof fn lemma_component_lt_total(a: Seq<char>, b: Seq<char>)
    ensures
        a == b || component_lt(a, b) || component_lt(b, a),
        !component_lt(a, a),
{
    lemma_chars_lt_total(a, b);
    lemma_chars_lt_irreflexive(a);
    if component_rank(a) == component_rank(b) && component_rank(a) < 3 {
        assert(a =~= b);
    }
}

pub proof fn lemma_component_lt_transitive(a: Seq<char>, b: Seq<char>, c: Seq<char>)
    requires
        component_lt(a, b),
        component_lt(b, c),
    ensures
        component_lt(a, c),
{
    if component_rank(a) == 3 && component_rank(b) == 3 && component_rank(c) == 3 {
        lemma_chars_lt_transitive(a, b, c);
    }
}

pub proof fn lemma_components_lt_irreflexive(a: Seq<Seq<char>>)
    ensures
        !components_lt(a, a),
    decreases a.len(),
{
    if a.len() > 0 {
        lemma_components_lt_irreflexive(a.drop_first());
    }
}

pub proof fn lemma_components_lt_transitive(a: Seq<Seq<char>>, b: Seq<Seq<char>>, c: Seq<Seq<char>>)
    requires
        components_lt(a, b),
        components_lt(b, c),
    ensures
        components_lt(a, c),
    decreases a.len(),
{
    if a.len() > 0 && b.len() > 0 && c.len() > 0 {
        if a[0] == b[0] && b[0] == c[0] {
            lemma_components_lt_transitive(a.drop_first(), b.drop_first(), c.drop_first());
        } else if a[0] != b[0] && b[0] != c[0] {
            lemma_component_lt_transitive(a[0], b[0], c[0]);
            if a[0] == c[0] {
                lemma_component_lt_total(a[0], b[0]);
                lemma_component_lt_transitive(b[0], c[0], b[0]);
                lemma_component_lt_total(b[0], b[0]);
            }
        }
    }
}

pub proof fn lemma_components_lt_total(a: Seq<Seq<char>>, b: Seq<Seq<char>>)
    ensures
        a == b || components_lt(a, b) || components_lt(b, a),
    decreases a.len(),
{
    if a.len() > 0 && b.len() > 0 {
        if a[0] == b[0] {
            lemma_components_lt_total(a.drop_first(), b.drop_first());
            if a.drop_first() == b.drop_first() {
                assert(a =~= seq![a[0]] + a.drop_first());
                assert(b =~= seq![b[0]] + b.drop_first());
            }
        } else {
            lemma_component_lt_total(a[0], b[0]);
        }
    } else if a.len() == 0 && b.len() == 0 {
        assert(a =~= b);
    }
}

proof fn lemma_split_step(s: Seq<char>, c: char, start: int, i: int)
    requires
        0 <= start <= i < s.len(),
        s[i] == c,
        forall|j: int| start <= j < i ==> s[j] != c,
    ensures
        split_on(s.skip(start), c) == seq![s.subrange(start, i)] + split_on(s.skip(i + 1), c),
{
    let t = s.skip(start);
    assert forall|j: int| 0 <= j < i - start implies t[j] != c by {
        assert(t[j] == s[start + j]);
    }
    lemma_first_index_at(t, c, i - start);
    assert(t.take(i - start) =~= s.subrange(start, i));
    assert(t.skip(i - start + 1) =~= s.skip(i + 1));
}

proof fn lemma_split_last(s: Seq<char>, c: char, start: int)
    requires
        0 <= start <= s.len(),
        forall|j: int| start <= j < s.len() ==> s[j] != c,
    ensures
        split_on(s.skip(start), c) == seq![s.skip(start)],
{
    let t = s.skip(start);
    assert forall|j: int| 0 <= j < t.len() implies t[j] != c by {
        assert(t[j] == s[start + j]);
    }
    lemma_first_index_at(t, c, t.len() as int);
}

/// The pieces of `v` between occurrences of `c`.
pub fn split_chars(v: &Vec<char>, c: char) -> (r: Vec<String>)
    ensures
        strs(r@) == split_on(v@, c),
        r@.len() >= 1,
{
    let mut out: Vec<String> = Vec::new();
    let mut start: usize = 0;
    let mut i: usize = 0;
    assert(v@.skip(0) =~= v@);
    while i < v.len()
        invariant
            0 <= start <= i <= v.len(),
            forall|j: int| start <= j < i ==> v@[j] != c,
            split_on(v@, c) == strs(out@) + split_on(v@.skip(start as int), c),
        decreases v.len() - i,
    {
        if v[i] == c {
            proof {
                lemma_split_step(v@, c, start as int, i as int);
            }
            let piece = string_of(v, start, i);
            let ghost before = out@;
            out.push(piece);
            assert(strs(out@) =~= strs(before) + seq![piece@]);
            start = i + 1;
        }
        i += 1;
    }
    proof {
        lemma_split_last(v@, c, start as int);
    }
    let piece = string_of(v, start, v.len());
    assert(v@.subrange(start as int, v@.len() as int) =~= v@.skip(start as int));
    let ghost before = out@;
    out.push(piece);
    assert(strs(out@) =~= strs(before) + seq![piece@]);
    out
}

proof fn lemma_segment_components_append(a: Seq<Seq<char>>, b: Seq<Seq<char>>)
    ensures
        segment_components(a + b) == segment_components(a) + segment_components(b),
    decreases a.len(),
{
    if a.len() == 0 {
        assert(a + b =~= b);
    } else {
        assert((a + b).drop_first() =~= a.drop_first() + b);
        lemma_segment_components_append(a.drop_first(), b);
    }
}

/// Whether the segment is empty or `"."`.
fn is_skipped_segment(g: &String) -> (r: bool)
    ensures
        r == (g@.len() == 0 || g@ == seq!['.']),
{
    let v = chars_of(g.as_str());
    if v.len() == 0 {
        true
    } else if v.len() == 1 && v[0] == '.' {
        assert(v@ =~= seq!['.']);
        true
    } else {
        false
    }
}

/// The components of the path `p`, each as its text.
pub fn path_components(p: &str) -> (r: Vec<String>)
    ensures
        strs(r@) == components(p@),
{
    let v = chars_of(p);
    let segs = split_chars(&v, '/');
    let rooted = v.len() > 0 && v[0] == '/';
    let mut out: Vec<String> = Vec::new();
    let mut i: usize = 0;
    if rooted {
        let mut root = String::new();
        root.push('/');
        out.push(root);
    } else {
        let first = chars_of(segs[0].as_str());
        if first.len() == 1 && first[0] == '.' {
            let mut cur = String::new();
            cur.push('.');
            out.push(cur);
            i = 1;
            assert(segs@[0]@ =~= seq!['.']);
        } else {
            assert(strs(segs@)[0] != seq!['.']);
        }
    }
    let ghost head = strs(out@);
    let ghost start = i as int;
    assert(strs(segs@).skip(start).take(0) =~= Seq::<Seq<char>>::empty());
    while i < segs.len()
        invariant
            0 <= start <= i <= segs.len(),
            strs(out@) == head + segment_components(strs(segs@).skip(start).take(i - start)),
        decreases segs.len() - i,
    {
        let ghost prev = strs(segs@).skip(start).take(i - start);
        let ghost next = strs(segs@).skip(start).take(i + 1 - start);
        let ghost one = seq![segs@[i as int]@];
        proof {
            assert(next =~= prev + one);
            lemma_segment_components_append(prev, one);
            assert(one.drop_first() =~= Seq::<Seq<char>>::empty());
            assert(segment_components(Seq::<Seq<char>>::empty()) =~= Seq::<Seq<char>>::empty());
        }
        let skip = is_skipped_segment(&segs[i]);
        if !skip {
            let ghost before = out@;
            out.push(segs[i].clone());
            assert(segment_components(one) =~= one);
            assert(strs(out@) =~= strs(before) + one);
        } else {
            assert(segment_components(one) =~= Seq::<Seq<char>>::empty());
        }
        i += 1;
    }
    proof {
        assert(strs(segs@).skip(start).take(i - start) =~= strs(segs@).skip(start));
        if rooted {
            assert(strs(segs@).skip(0) =~= strs(segs@));
            assert(head =~= seq![seq!['/']]);
        } else if start == 1 {
            assert(strs(segs@).skip(1) =~= strs(segs@).drop_first());
            assert(head =~= seq![seq!['.']]);
        } else {
            assert(strs(segs@).skip(0) =~= strs(segs@));
            assert(head =~= Seq::<Seq<char>>::empty());
        }
        assert(strs(out@) =~= components(p@));
    }
    out
}


/// `buf` followed by the characters of `s`.
pub fn append_chars(buf: &mut Vec<char>, s: &str)
    ensures
        final(buf)@ == old(buf)@ + s@,
{
    let v = chars_of(s);
    let ghost start = buf@;
    let mut i: usize = 0;
    while i < v.len()
        invariant
            0 <= i <= v.len(),
            buf@ == start + v@.take(i as int),
        decreases v.len() - i,
    {
        buf.push(v[i]);
        i += 1;
        assert(buf@ =~= start + v@.take(i as int));
    }
    assert(v@.take(v@.len() as int) =~= v@);
}

/// Whether the component text is `"/"`.
fn is_root_text(c: &String) -> (r: bool)
    ensures
        r == (c@ == seq!['/']),
{
    let v = chars_of(c.as_str());
    if v.len() == 1 && v[0] == '/' {
        assert(v@ =~= seq!['/']);
        true
    } else {
        false
    }
}

/// The text of the path built by pushing `cs[from..]` onto an empty `PathBuf`.
pub fn render_components(cs: &Vec<String>, from: usize) -> (r: String)
    requires
        from <= cs.len(),
    ensures
        r@ == render(strs(cs@).skip(from as int)),
{
    let ghost all = strs(cs@).skip(from as int);
    let mut buf: Vec<char> = Vec::new();
    let mut i = from;
    assert(all.take(0) =~= Seq::<Seq<char>>::empty());
    while i < cs.len()
        invariant
            from <= i <= cs.len(),
            all == strs(cs@).skip(from as int),
            buf@ == render(all.take(i - from)),
        decreases cs.len() - i,
    {
        let ghost prev = all.take(i - from);
        let ghost next = all.take(i + 1 - from);
        assert(next.drop_last() =~= prev);
        assert(next.last() == cs@[i as int]@);
        if is_root_text(&cs[i]) {
            buf = Vec::new();
            buf.push('/');
            assert(buf@ =~= seq!['/']);
        } else {
            let n = buf.len();
            if n > 0 && buf[n - 1] != '/' {
                buf.push('/');
            }
            append_chars(&mut buf, cs[i].as_str());
        }
        i += 1;
    }
    assert(all.take(cs.len() - from) =~= all);
    string_of(&buf, 0, buf.len())
}

/// The path rebuilt from its components without current-directory components
/// (`.` segments and repeated separators vanish).
pub fn normalize_rel_path(path: &str) -> (r: String)
    ensures
        r@ == spec_normalize_rel_path(path@),
{
    let cs = path_components(path);
    let skip_first = cs.len() > 0 && chars_of(cs[0].as_str()).len() == 1 && chars_of(
        cs[0].as_str(),
    )[0] == '.';
    let from: usize = if skip_first {
        1
    } else {
        0
    };
    let r = render_components(&cs, from);
    proof {
        let all = strs(cs@);
        if skip_first {
            assert(all[0] =~= seq!['.']);
            assert(all.skip(1) =~= all.drop_first());
        } else {
            assert(all.skip(0) =~= all);
            if all.len() > 0 && all[0] == seq!['.'] {
                assert(all[0].len() == 1 && all[0][0] == '.');
            }
        }
    }
    r
}

/// Whether the components `q` begin the components `p`.
fn components_prefix(q: &Vec<String>, p: &Vec<String>) -> (r: bool)
    ensures
        r == is_component_prefix(strs(q@), strs(p@)),
{
    if q.len() > p.len() {
        return false;
    }
    let mut i: usize = 0;
    while i < q.len()
        invariant
            q.len() <= p.len(),
            0 <= i <= q.len(),
            forall|j: int| 0 <= j < i ==> q@[j]@ == p@[j]@,
        decreases q.len() - i,
    {
        if q[i] != p[i] {
            assert(strs(p@).take(q.len() as int)[i as int] != strs(q@)[i as int]);
            return false;
        }
        i += 1;
    }
    assert(strs(p@).take(q.len() as int) =~= strs(q@));
    true
}

/// Whether the path `p` starts with the path `base`, component by component
/// (`Path::starts_with`).
pub fn path_starts_with(p: &str, base: &str) -> (r: bool)
    ensures
        r == is_component_prefix(components(base@), components(p@)),
{
    let pc = path_components(p);
    let bc = path_components(base);
    components_prefix(&bc, &pc)
}

/// The path made relative to the working directory `cwd` when it is absolute
/// and lies under `cwd`, then normalised; `cwd` is `None` when the working
/// directory is not known.
pub fn relativize_to_cwd(path: &str, cwd: Option<&str>) -> (r: String)
    ensures
        r@ == spec_relativize(path@, match cwd {
            Some(c) => Some(c@),
            None => None,
        }),
{
    let v = chars_of(path);
    let absolute = v.len() > 0 && v[0] == '/';
    let cs = path_components(path);
    let mut from: usize = 0;
    match cwd {
        Some(c) => {
            if absolute {
                let cc = path_components(c);
                if components_prefix(&cc, &cs) {
                    from = cc.len();
                }
            }
        },
        None => {},
    }
    let ghost rest = strs(cs@).skip(from as int);
    let skip_first = from < cs.len() && chars_of(cs[from].as_str()).len() == 1 && chars_of(
        cs[from].as_str(),
    )[0] == '.';
    let start: usize = if skip_first {
        from + 1
    } else {
        from
    };
    let r = render_components(&cs, start);
    proof {
        assert(strs(cs@).skip(from as int).len() == cs.len() - from);
        if skip_first {
            assert(rest[0] =~= seq!['.']);
            assert(strs(cs@).skip(start as int) =~= rest.drop_first());
        } else {
            if rest.len() > 0 && rest[0] == seq!['.'] {
                assert(rest[0].len() == 1 && rest[0][0] == '.');
                assert(cs@[from as int]@ == rest[0]);
            }
        }
        assert(strs(cs@).skip(0) =~= strs(cs@));
    }
    r
}

/// A path is ignored exactly when one of its components is `.git`,
/// `node_modules` or `target`, letter for letter: a component that only
/// starts with a dot (`.`, `..`, `.github`) does not make it ignored.
pub proof fn lemma_ignored_iff_named_component(p: Seq<char>)
    ensures
        spec_is_ignored_path(p) <==> exists|i: int|
            0 <= i < components(p).len() && (#[trigger] components(p)[i] == ".git"@
                || components(p)[i] == "node_modules"@ || components(p)[i] == "target"@),
{
}

/// Whether some component of the path is `.git`, `node_modules` or `target`.
pub fn is_ignored_path(path: &str) -> (r: bool)
    ensures
        r == spec_is_ignored_path(path@),
        r <==> exists|i: int|
            0 <= i < components(path@).len() && (#[trigger] components(path@)[i] == ".git"@
                || components(path@)[i] == "node_modules"@ || components(path@)[i] == "target"@),
{
    let cs = path_components(path);
    let mut i: usize = 0;
    while i < cs.len()
        invariant
            strs(cs@) == components(path@),
            0 <= i <= cs.len(),
            forall|j: int| 0 <= j < i ==> !is_ignored_name(#[trigger] components(path@)[j]),
        decreases cs.len() - i,
    {
        if str_eq_text(&cs[i], ".git") || str_eq_text(&cs[i], "node_modules") || str_eq_text(&cs[i], "target") {
            assert(is_ignored_name(components(path@)[i as int]));
            return true;
        }
        i += 1;
    }
    false
}

/// Whether the string is exactly `lit`.
fn str_eq_text(s: &String, lit: &str) -> (r: bool)
    ensures
        r == (s@ == lit@),
{
    crate::text::str_eq(s.as_str(), lit)
}

/// The extension of the path (`Path::extension`).
pub fn path_extension(path: &str) -> (r: Option<String>)
    ensures
        match r {
            Some(e) => extension(path@) == Some(e@),
            None => extension(path@).is_none(),
        },
{
    let cs = path_components(path);
    if cs.len() == 0 {
        return None;
    }
    let last = &cs[cs.len() - 1];
    let ghost name = strs(cs@).last();
    assert(name == last@);
    let v = chars_of(last.as_str());
    let special = (v.len() == 1 && (v[0] == '/' || v[0] == '.')) || (v.len() == 2 && v[0] == '.'
        && v[1] == '.');
    proof {
        if v.len() == 1 && v[0] == '/' {
            assert(v@ =~= seq!['/']);
        }
        if v.len() == 1 && v[0] == '.' {
            assert(v@ =~= seq!['.']);
        }
        if v.len() == 2 && v[0] == '.' && v[1] == '.' {
            assert(v@ =~= seq!['.', '.']);
        }
    }
    if special {
        return None;
    }
    let mut k = v.len();
    assert(v@.take(k as int) =~= v@);
    while k > 0 && v[k - 1] != '.'
        invariant
            0 <= k <= v.len(),
            last_index(v@, '.') == last_index(v@.take(k as int), '.'),
        decreases k,
    {
        assert(v@.take(k as int).drop_last() =~= v@.take(k - 1));
        k -= 1;
    }
    proof {
        if k > 0 {
            assert(v@.take(k as int).last() == '.');
        } else {
            assert(v@.take(0).len() == 0);
        }
    }
    if k >= 2 {
        Some(string_of(&v, k, v.len()))
    } else {
        None
    }
}


/// The rank of a component text in the order of `std::path::Component`.
fn rank_of(c: &String) -> (r: u8)
    ensures
        r == component_rank(c@),
{
    let v = chars_of(c.as_str());
    if v.len() == 1 && v[0] == '/' {
        assert(v@ =~= seq!['/']);
        0
    } else if v.len() == 1 && v[0] == '.' {
        assert(v@ =~= seq!['.']);
        1
    } else if v.len() == 2 && v[0] == '.' && v[1] == '.' {
        assert(v@ =~= seq!['.', '.']);
        2
    } else {
        3
    }
}

/// Whether the component `a` comes strictly before the component `b`.
fn component_less(a: &String, b: &String) -> (r: bool)
    ensures
        r == component_lt(a@, b@),
{
    let ra = rank_of(a);
    let rb = rank_of(b);
    if ra != rb {
        ra < rb
    } else {
        ra == 3 && str_lt(a.as_str(), b.as_str())
    }
}

/// Whether the path `a` comes strictly before the path `b` in the order of `Path`.
pub fn path_less(a: &str, b: &str) -> (r: bool)
    ensures
        r == path_lt(a@, b@),
{
    let x = path_components(a);
    let y = path_components(b);
    let ghost xs = strs(x@);
    let ghost ys = strs(y@);
    let mut i: usize = 0;
    assert(xs.skip(0) =~= xs && ys.skip(0) =~= ys);
    while i < x.len() && i < y.len() && x[i] == y[i]
        invariant
            xs == strs(x@),
            ys == strs(y@),
            0 <= i <= x.len(),
            i <= y.len(),
            path_lt(a@, b@) == components_lt(xs.skip(i as int), ys.skip(i as int)),
        decreases x.len() - i,
    {
        assert(xs.skip(i as int).drop_first() =~= xs.skip(i + 1));
        assert(ys.skip(i as int).drop_first() =~= ys.skip(i + 1));
        i += 1;
    }
    if i == x.len() {
        i < y.len()
    } else if i == y.len() {
        false
    } else {
        assert(xs.skip(i as int)[0] == x@[i as int]@ && ys.skip(i as int)[0] == y@[i as int]@);
        component_less(&x[i], &y[i])
    }
}

/// Whether the paths `a` and `b` have the same components (`Path` equality).
pub fn paths_equal(a: &str, b: &str) -> (r: bool)
    ensures
        r == path_eq(a@, b@),
{
    let x = path_components(a);
    let y = path_components(b);
    if x.len() != y.len() {
        return false;
    }
    let r = components_prefix(&x, &y);
    assert(strs(y@).take(x.len() as int) =~= strs(y@));
    r
}

/// Whether the paths are in strictly increasing order of `Path`.
pub open spec fn path_sorted(s: Seq<Seq<char>>) -> bool {
    forall|i: int, j: int| 0 <= i < j < s.len() ==> path_lt(#[trigger] s[i], #[trigger] s[j])
}

/// Whether some path of `s` is equal to `p` as a `Path`.
pub open spec fn contains_path(s: Seq<Seq<char>>, p: Seq<char>) -> bool {
    exists|i: int| 0 <= i < s.len() && path_eq(#[trigger] s[i], p)
}

/// A set of file paths, kept in the order of `Path` with no two equal paths
/// (a `BTreeSet<PathBuf>`).
pub struct FileSet {
    paths: Vec<String>,
}

impl View for FileSet {
    type V = Seq<Seq<char>>;

    closed spec fn view(&self) -> Seq<Seq<char>> {
        strs(self.paths@)
    }
}

impl FileSet {
    #[verifier::type_invariant]
    closed spec fn sorted(self) -> bool {
        path_sorted(strs(self.paths@))
    }

    /// The empty set.
    pub fn new() -> (r: FileSet)
        ensures
            r@ == Seq::<Seq<char>>::empty(),
    {
        let r = FileSet { paths: Vec::new() };
        assert(strs(r.paths@) =~= Seq::<Seq<char>>::empty());
        r
    }

    /// The number of paths (which are in strictly increasing order).
    pub fn len(&self) -> (r: usize)
        ensures
            r == self@.len(),
            path_sorted(self@),
    {
        proof {
            use_type_invariant(self);
        }
        self.paths.len()
    }

    /// The path at index `i` in increasing order.
    pub fn get(&self, i: usize) -> (r: &String)
        requires
            i < self@.len(),
        ensures
            r@ == self@[i as int],
    {
        &self.paths[i]
    }

    /// The paths in increasing order.
    pub fn to_vec(&self) -> (r: Vec<String>)
        ensures
            strs(r@) == self@,
            path_sorted(self@),
    {
        proof {
            use_type_invariant(self);
        }
        self.paths.clone()
    }

    /// Whether some path of the set is equal to `p` as a `Path`.
    pub fn contains(&self, p: &str) -> (r: bool)
        ensures
            r == contains_path(self@, p@),
    {
        let mut i: usize = 0;
        while i < self.paths.len()
            invariant
                0 <= i <= self.paths.len(),
                forall|j: int| 0 <= j < i ==> !path_eq(#[trigger] strs(self.paths@)[j], p@),
            decreases self.paths.len() - i,
        {
            if paths_equal(self.paths[i].as_str(), p) {
                assert(path_eq(strs(self.paths@)[i as int], p@));
                return true;
            }
            i += 1;
        }
        false
    }

    /// Adds `p` unless an equal path is present; returns whether it was added.
    pub fn insert(&mut self, p: String) -> (added: bool)
        ensures
            added == !contains_path(old(self)@, p@),
            path_sorted(final(self)@),
            forall|q: Seq<char>| #[trigger] contains_path(final(self)@, q) <==> (contains_path(old(self)@, q) || path_eq(p@, q)),
            !added ==> final(self)@ == old(self)@,
            added ==> exists|k: int|
                0 <= k <= old(self)@.len() && final(self)@ == old(self)@.insert(k, p@),
    {
        proof {
            use_type_invariant(&*self);
        }
        let ghost old_v = strs(self.paths@);
        let mut i: usize = 0;
        while i < self.paths.len() && path_less(self.paths[i].as_str(), p.as_str())
            invariant
                old_v == strs(self.paths@),
                path_sorted(old_v),
                0 <= i <= self.paths.len(),
                forall|j: int| 0 <= j < i ==> path_lt(#[trigger] old_v[j], p@),
            decreases self.paths.len() - i,
        {
            i += 1;
        }
        proof {
            assert forall|j: int| 0 <= j < i implies !path_eq(#[trigger] old_v[j], p@) by {
                lemma_components_lt_irreflexive(components(p@));
            }
        }
        if i < self.paths.len() && paths_equal(self.paths[i].as_str(), p.as_str()) {
            assert(path_eq(old_v[i as int], p@));
            proof {
                use_type_invariant(&*self);
                assert forall|q: Seq<char>| #[trigger] contains_path(self@, q) <==> (contains_path(old_v, q) || path_eq(p@, q)) by {
                    if path_eq(p@, q) {
                        assert(path_eq(old_v[i as int], q));
                    }
                }
            }
            return false;
        }
        proof {
            if i < old_v.len() {
                lemma_components_lt_total(components(old_v[i as int]), components(p@));
                assert(path_lt(p@, old_v[i as int]));
                assert forall|j: int| i <= j < old_v.len() implies path_lt(p@, #[trigger] old_v[j]) by {
                    if j > i {
                        lemma_components_lt_transitive(components(p@), components(old_v[i as int]), components(old_v[j]));
                    }
                }
            }
            assert forall|j: int| 0 <= j < old_v.len() implies !path_eq(#[trigger] old_v[j], p@) by {
                if j >= i {
                    assert(path_lt(p@, old_v[j]));
                    lemma_components_lt_irreflexive(components(p@));
                }
            }
        }
        let ghost pv = p@;
        let mut v: Vec<String> = Vec::new();
        std::mem::swap(&mut v, &mut self.paths);
        v.insert(i, p);
        proof {
            let nv = strs(v@);
            assert(nv =~= old_v.insert(i as int, pv));
            assert forall|a: int, b: int| 0 <= a < b < nv.len() implies path_lt(#[trigger] nv[a], #[trigger] nv[b]) by {
                if b < i {
                    assert(nv[a] == old_v[a] && nv[b] == old_v[b]);
                } else if b == i {
                    assert(nv[a] == old_v[a]);
                } else if a < i {
                    assert(nv[a] == old_v[a] && nv[b] == old_v[b - 1]);
                    if b - 1 >= i {
                        lemma_components_lt_transitive(components(old_v[a]), components(pv), components(old_v[b - 1]));
                    }
                } else if a == i {
                    assert(nv[b] == old_v[b - 1]);
                } else {
                    assert(nv[a] == old_v[a - 1] && nv[b] == old_v[b - 1]);
                }
            }
        }
        self.paths = v;
        assert(self@ == old(self)@.insert(i as int, pv));
        proof {
            let nv = self@;
            assert forall|q: Seq<char>| #[trigger] contains_path(nv, q) <==> (contains_path(old_v, q) || path_eq(pv, q)) by {
                if contains_path(nv, q) {
                    let j = choose|j: int| 0 <= j < nv.len() && path_eq(#[trigger] nv[j], q);
                    if j < i {
                        assert(nv[j] == old_v[j]);
                    } else if j > i {
                        assert(nv[j] == old_v[j - 1]);
                    }
                }
                if contains_path(old_v, q) {
                    let j = choose|j: int| 0 <= j < old_v.len() && path_eq(#[trigger] old_v[j], q);
                    if j < i {
                        assert(nv[j] == old_v[j]);
                    } else {
                        assert(nv[j + 1] == old_v[j]);
                    }
                }
                if path_eq(pv, q) {
                    assert(nv[i as int] == pv);
                }
            }
        }
        true
    }
}

} // verus!
