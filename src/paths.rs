//! Paths as `/`-separated character strings: parent directory, joining,
//! file-name extension, and lexical normalisation.
use vstd::prelude::*;
use crate::text::{chars_of, chars_equal, find_last, last_index_of, lemma_last_index_bounds, string_from_chars, string_of, sub_chars, views};

verus! {

/// Folding path components as `path_clean::clean` does: `.` is dropped, `..`
/// is dropped after the root, removes a preceding name, and is kept otherwise;
/// the root and names are kept.
pub open spec fn clean_fold(comps: Seq<Seq<char>>) -> Seq<Seq<char>>
    decreases comps.len(),
{
    if comps.len() == 0 {
        Seq::empty()
    } else {
        let out = clean_fold(comps.drop_last());
        let c = comps.last();
        if c == seq!['.'] {
            out
        } else if c == seq!['.', '.'] {
            if out.len() > 0 && out.last() == seq!['/'] {
                out
            } else if out.len() > 0 && out.last() != seq!['.'] && out.last() != seq!['.', '.'] {
                out.drop_last()
            } else {
                out.push(c)
            }
        } else {
            out.push(c)
        }
    }
}

/// The lexically normalised form of a path: its components folded by
/// `clean_fold` and joined again, or `.` when nothing is left.
pub open spec fn cleaned(p: Seq<char>) -> Seq<char> {
    let out = clean_fold(components(p));
    if out.len() == 0 {
        seq!['.']
    } else {
        join_names(out)
    }
}

/// Relies on `path_clean::clean`: it walks `Path::components` (on Unix: the
/// root, a leading `.`, `..` and names, with empty and inner `.` names left
/// out), folds them as `clean_fold` states, and collects them into a path,
/// `"."` when none is left. A path built from a `&str` converts back without
/// loss.
#[verifier::external_body]
pub fn clean_path(p: &str) -> (r: String)
    ensures
        r@ == cleaned(p@),
{
    path_clean::clean(p).to_string_lossy().into_owned()
}

/// `p` without its trailing separators.
pub open spec fn trim_trailing_seps(p: Seq<char>) -> Seq<char>
    decreases p.len(),
{
    if p.len() > 0 && p.last() == '/' {
        trim_trailing_seps(p.drop_last())
    } else {
        p
    }
}

/// The directory that contains `p`: everything before its last name, `"/"`
/// for a name directly under the root, `""` for a bare name, and `None` for a
/// path without any name.
pub open spec fn parent_dir(p: Seq<char>) -> Option<Seq<char>> {
    let q = trim_trailing_seps(p);
    let k = last_index_of(q, '/');
    if q.len() == 0 {
        None
    } else if k < 0 {
        Some(Seq::empty())
    } else if k == 0 {
        Some(seq!['/'])
    } else {
        Some(q.subrange(0, k))
    }
}

/// `rest` placed under the directory `dir`.
pub open spec fn join_path(dir: Seq<char>, rest: Seq<char>) -> Seq<char> {
    if dir.len() == 0 {
        rest
    } else {
        dir + seq!['/'] + rest
    }
}

/// The last name of `p`: what follows its last separator.
pub open spec fn final_segment(p: Seq<char>) -> Seq<char> {
    p.subrange(last_index_of(p, '/') + 1, p.len() as int)
}

/// The extension of the last name of `p`: what follows its last `.`, where
/// that `.` is not the name's first character and the name is not `..`.
pub open spec fn extension_of(p: Seq<char>) -> Option<Seq<char>> {
    let n = final_segment(p);
    let k = last_index_of(n, '.');
    if n == seq!['.', '.'] || k <= 0 {
        None
    } else {
        Some(n.subrange(k + 1, n.len() as int))
    }
}

proof fn lemma_trim_prefix(cs: Seq<char>, end: int)
    requires
        0 < end <= cs.len(),
        cs[end - 1] == '/',
    ensures
        trim_trailing_seps(cs.subrange(0, end)) == trim_trailing_seps(cs.subrange(0, end - 1)),
{
    assert(cs.subrange(0, end).drop_last() =~= cs.subrange(0, end - 1));
}

/// The directory that contains `p` (see `parent_dir`).
pub fn parent_of(p: &str) -> (r: Option<String>)
    ensures
        match r {
            Some(d) => parent_dir(p@) == Some(d@),
            None => parent_dir(p@) is None,
        },
{
    let cs = chars_of(p);
    let mut end = cs.len();
    assert(cs@.subrange(0, end as int) =~= cs@);
    while end > 0 && cs[end - 1] == '/'
        invariant
            end <= cs@.len(),
            trim_trailing_seps(cs@.subrange(0, end as int)) == trim_trailing_seps(p@),
        decreases end,
    {
        proof {
            lemma_trim_prefix(cs@, end as int);
        }
        end -= 1;
    }
    let ghost q = cs@.subrange(0, end as int);
    assert(trim_trailing_seps(q) == q);
    if end == 0 {
        return None;
    }
    match find_last(&cs, end, '/') {
        None => Some(String::new()),
        Some(k) => {
            if k == 0 {
                let mut root = String::new();
                crate::text::push_char(&mut root, '/');
                Some(root)
            } else {
                let d = string_from_chars(&cs, 0, k);
                assert(q.subrange(0, k as int) =~= cs@.subrange(0, k as int));
                Some(d)
            }
        },
    }
}

/// `rest` placed under the directory `dir` (see `join_path`).
pub fn join_under(dir: &str, rest: &str) -> (r: String)
    ensures
        r@ == join_path(dir@, rest@),
{
    let mut out = String::from_str(dir);
    if dir.unicode_len() > 0 {
        crate::text::push_char(&mut out, '/');
    }
    out.append(rest);
    out
}

/// The extension of the last name of `p` (see `extension_of`).
pub fn extension_chars(p: &Vec<char>) -> (r: Option<Vec<char>>)
    ensures
        match r {
            Some(e) => extension_of(p@) == Some(e@),
            None => extension_of(p@) is None,
        },
{
    proof {
        lemma_last_index_bounds(p@, '/');
    }
    let start: usize = match find_last(p, p.len(), '/') {
        Some(k) => k + 1,
        None => 0,
    };
    assert(p@.subrange(0, p@.len() as int) =~= p@);
    let name = sub_chars(p, start, p.len());
    assert(name@ == final_segment(p@));
    let dots = vec!['.', '.'];
    if chars_equal(&name, &dots) {
        assert(dots@ =~= seq!['.', '.']);
        return None;
    }
    assert(name@ != seq!['.', '.']) by {
        assert(dots@ =~= seq!['.', '.']);
    }
    assert(name@.subrange(0, name@.len() as int) =~= name@);
    match find_last(&name, name.len(), '.') {
        Some(k) => {
            if k == 0 {
                None
            } else {
                proof {
                    lemma_last_index_bounds(name@, '.');
                }
                Some(sub_chars(&name, k + 1, name.len()))
            }
        },
        None => None,
    }
}

/// `done` with the name `cur` added, unless `cur` is empty, or is `.` anywhere
/// but at the start of a path that is not rooted.
pub open spec fn flush_name(done: Seq<Seq<char>>, cur: Seq<char>, rooted: bool) -> Seq<Seq<char>> {
    if cur.len() > 0 && (cur != seq!['.'] || (done.len() == 0 && !rooted)) {
        done.push(cur)
    } else {
        done
    }
}

/// Reading `p` from the left: the names completed so far and the name in progress.
pub open spec fn split_names(p: Seq<char>) -> (Seq<Seq<char>>, Seq<char>)
    decreases p.len(),
{
    if p.len() == 0 {
        (Seq::empty(), Seq::empty())
    } else {
        let (done, cur) = split_names(p.drop_last());
        if p.last() == '/' {
            (flush_name(done, cur, p[0] == '/'), Seq::empty())
        } else {
            (done, cur.push(p.last()))
        }
    }
}

/// The components of `p`: `"/"` first for a rooted path, then its names, with
/// empty names left out and `.` kept only as the first name of a path that is
/// not rooted.
pub open spec fn components(p: Seq<char>) -> Seq<Seq<char>> {
    let (done, cur) = split_names(p);
    let names = flush_name(done, cur, p.len() > 0 && p[0] == '/');
    if p.len() > 0 && p[0] == '/' {
        seq![seq!['/']] + names
    } else {
        names
    }
}

/// The components of `p` (see `components`).
pub fn path_components(p: &str) -> (r: Vec<String>)
    ensures
        views(r@) == components(p@),
{
    let cs = chars_of(p);
    let mut done: Vec<String> = Vec::new();
    let mut cur: Vec<char> = Vec::new();
    let dot = vec!['.'];
    assert(dot@ =~= seq!['.']);
    let rooted = cs.len() > 0 && cs[0] == '/';
    for i in 0..cs.len()
        invariant
            cs@ == p@,
            dot@ == seq!['.'],
            rooted == (cs@.len() > 0 && cs@[0] == '/'),
            (views(done@), cur@) == split_names(cs@.subrange(0, i as int)),
    {
        assert(cs@.subrange(0, i + 1).drop_last() =~= cs@.subrange(0, i as int));
        assert(cs@.subrange(0, i + 1)[0] == cs@[0]);
        if cs[i] == '/' {
            if cur.len() > 0 && (!chars_equal(&cur, &dot) || (done.len() == 0 && !rooted)) {
                let name = string_of(&cur);
                let ghost before = done@;
                done.push(name);
                assert(views(done@) =~= views(before).push(name@));
            }
            cur = Vec::new();
            assert(cur@ =~= Seq::<char>::empty());
        } else {
            cur.push(cs[i]);
        }
    }
    assert(cs@.subrange(0, cs@.len() as int) =~= cs@);
    if cur.len() > 0 && (!chars_equal(&cur, &dot) || (done.len() == 0 && !rooted)) {
        let name = string_of(&cur);
        let ghost before = done@;
        done.push(name);
        assert(views(done@) =~= views(before).push(name@));
    }
    if cs.len() > 0 && cs[0] == '/' {
        let mut out: Vec<String> = Vec::new();
        let mut root = String::new();
        crate::text::push_char(&mut root, '/');
        out.push(root);
        assert(root@ =~= seq!['/']);
        let ghost names = done@;
        out.append(&mut done);
        assert(views(out@) =~= seq![seq!['/']] + views(names));
        out
    } else {
        done
    }
}

/// The components of `path` below `root`, when `root`'s components begin it.
pub open spec fn relative_components(root: Seq<char>, path: Seq<char>) -> Option<Seq<Seq<char>>> {
    let rc = components(root);
    let pc = components(path);
    if rc.len() <= pc.len() && pc.subrange(0, rc.len() as int) == rc {
        Some(pc.subrange(rc.len() as int, pc.len() as int))
    } else {
        None
    }
}

/// The components of `path` below the root whose components are
/// `root_components` (see `relative_components`).
pub fn strip_root(root: &str, path: &str) -> (r: Option<Vec<String>>)
    ensures
        match r {
            Some(rel) => relative_components(root@, path@) == Some(views(rel@)),
            None => relative_components(root@, path@) is None,
        },
{
    let root_components = path_components(root);
    let pc = path_components(path);
    let n = root_components.len();
    if n > pc.len() {
        return None;
    }
    let mut i: usize = 0;
    while i < n
        invariant
            n == root_components@.len() <= pc@.len(),
            i <= n,
            views(pc@) == components(path@),
            views(root_components@) == components(root@),
            forall|j: int| 0 <= j < i ==> pc@[j]@ == root_components@[j]@,
        decreases n - i,
    {
        if !crate::text::str_equals(pc[i].as_str(), root_components[i].as_str()) {
            proof {
                let a = views(pc@).subrange(0, n as int);
                let b = views(root_components@);
                assert(a[i as int] == pc@[i as int]@);
                assert(b[i as int] == root_components@[i as int]@);
                assert(a[i as int] != b[i as int]);
                assert(a != b);
                assert(components(path@) == views(pc@));
                assert(components(root@) == b);
            }
            return None;
        }
        i += 1;
    }
    assert(views(pc@).subrange(0, n as int) =~= views(root_components@));
    let mut rel: Vec<String> = Vec::new();
    let mut k = n;
    while k < pc.len()
        invariant
            n <= k <= pc@.len(),
            views(rel@) == views(pc@).subrange(n as int, k as int),
        decreases pc.len() - k,
    {
        let ghost before = rel@;
        rel.push(pc[k].clone());
        assert(views(rel@) =~= views(before).push(pc@[k as int]@));
        assert(views(pc@).subrange(n as int, k + 1) =~= views(pc@).subrange(n as int, k as int).push(
            pc@[k as int]@,
        ));
        k += 1;
    }
    Some(rel)
}

/// `name` appended to `prefix` with a separator, unless `prefix` is empty or
/// already ends with one.
pub open spec fn append_name(prefix: Seq<char>, name: Seq<char>) -> Seq<char> {
    if prefix.len() == 0 {
        name
    } else if prefix.last() == '/' {
        prefix + name
    } else {
        prefix + seq!['/'] + name
    }
}

/// Names joined into a path.
pub open spec fn join_names(names: Seq<Seq<char>>) -> Seq<char>
    decreases names.len(),
{
    if names.len() == 0 {
        Seq::empty()
    } else {
        append_name(join_names(names.drop_last()), names.last())
    }
}

/// `name` appended to `prefix` (see `append_name`).
pub fn push_name(prefix: &mut String, name: &str)
    ensures
        final(prefix)@ == append_name(old(prefix)@, name@),
{
    let cs = chars_of(prefix.as_str());
    if cs.len() > 0 && cs[cs.len() - 1] != '/' {
        crate::text::push_char(prefix, '/');
    }
    prefix.append(name);
}

/// Names joined into a path (see `join_names`).
pub fn join_all(names: &Vec<String>, from: usize, to: usize) -> (r: String)
    requires
        from <= to <= names@.len(),
    ensures
        r@ == join_names(views(names@).subrange(from as int, to as int)),
{
    let mut out = String::new();
    let mut i = from;
    assert(views(names@).subrange(from as int, from as int) =~= Seq::<Seq<char>>::empty());
    while i < to
        invariant
            from <= i <= to <= names@.len(),
            out@ == join_names(views(names@).subrange(from as int, i as int)),
        decreases to - i,
    {
        push_name(&mut out, names[i].as_str());
        assert(views(names@).subrange(from as int, i + 1).drop_last() =~= views(names@).subrange(
            from as int,
            i as int,
        ));
        i += 1;
    }
    out
}

/// How `path` is shown relative to `root`: its components below the root
/// joined, or the whole path when it is not under the root.
pub open spec fn display_relative(root: Seq<char>, path: Seq<char>) -> Seq<char> {
    match relative_components(root, path) {
        Some(rel) => join_names(rel),
        None => path,
    }
}

/// How `path` is shown relative to `root` (see `display_relative`).
pub fn relative_display(root: &str, path: &str) -> (r: String)
    ensures
        r@ == display_relative(root@, path@),
{
    match strip_root(root, path) {
        Some(rel) => {
            assert(views(rel@).subrange(0, rel@.len() as int) =~= views(rel@));
            join_all(&rel, 0, rel.len())
        },
        None => String::from_str(path),
    }
}

/// Character order on strings: by code point, a proper prefix first.
pub open spec fn chars_before(a: Seq<char>, b: Seq<char>) -> bool
    decreases a.len(),
{
    if a.len() == 0 {
        b.len() > 0
    } else if b.len() == 0 {
        false
    } else if a[0] != b[0] {
        (a[0] as u32) < (b[0] as u32)
    } else {
        chars_before(a.drop_first(), b.drop_first())
    }
}

/// The rank of a component in path order: the root, then a leading `.`, then
/// `..`, then names.
pub open spec fn component_rank(c: Seq<char>) -> int {
    if c == seq!['/'] {
        0
    } else if c == seq!['.'] {
        1
    } else if c == seq!['.', '.'] {
        2
    } else {
        3
    }
}

/// Component order: by rank, and names by character order.
pub open spec fn component_before(a: Seq<char>, b: Seq<char>) -> bool {
    component_rank(a) < component_rank(b) || (component_rank(a) == 3 && component_rank(b) == 3
        && chars_before(a, b))
}

fn component_rank_exec(c: &str) -> (r: u8)
    ensures
        r as int == component_rank(c@),
{
    proof {
        reveal_strlit("/");
        reveal_strlit(".");
        reveal_strlit("..");
        assert("/"@ =~= seq!['/']);
        assert("."@ =~= seq!['.']);
        assert(".."@ =~= seq!['.', '.']);
    }
    if crate::text::str_equals(c, "/") {
        0
    } else if crate::text::str_equals(c, ".") {
        1
    } else if crate::text::str_equals(c, "..") {
        2
    } else {
        3
    }
}

/// Whether component `a` comes before component `b` (see `component_before`).
fn component_precedes(a: &str, b: &str) -> (r: bool)
    ensures
        r == component_before(a@, b@),
{
    let ra = component_rank_exec(a);
    let rb = component_rank_exec(b);
    ra < rb || (ra == 3 && rb == 3 && str_before(a, b))
}

/// Lexicographic order on component sequences.
pub open spec fn names_before(a: Seq<Seq<char>>, b: Seq<Seq<char>>) -> bool
    decreases a.len(),
{
    if a.len() == 0 {
        b.len() > 0
    } else if b.len() == 0 {
        false
    } else if a[0] != b[0] {
        component_before(a[0], b[0])
    } else {
        names_before(a.drop_first(), b.drop_first())
    }
}

/// Path order: component by component, as `Path`s are ordered.
pub open spec fn path_before(a: Seq<char>, b: Seq<char>) -> bool {
    names_before(components(a), components(b))
}

/// Whether `a` comes before `b` in character order.
pub fn str_before(a: &str, b: &str) -> (r: bool)
    ensures
        r == chars_before(a@, b@),
{
    let x = chars_of(a);
    let y = chars_of(b);
    let mut i: usize = 0;
    assert(x@.subrange(0, x@.len() as int) =~= x@);
    assert(y@.subrange(0, y@.len() as int) =~= y@);
    while i < x.len() && i < y.len() && x[i] == y[i]
        invariant
            i <= x@.len(),
            i <= y@.len(),
            chars_before(a@, b@) == chars_before(
                x@.subrange(i as int, x@.len() as int),
                y@.subrange(i as int, y@.len() as int),
            ),
            x@ == a@,
            y@ == b@,
        decreases x.len() - i,
    {
        assert(x@.subrange(i as int, x@.len() as int).drop_first() =~= x@.subrange(i + 1, x@.len() as int));
        assert(y@.subrange(i as int, y@.len() as int).drop_first() =~= y@.subrange(i + 1, y@.len() as int));
        i += 1;
    }
    if i == x.len() {
        i < y.len()
    } else if i == y.len() {
        false
    } else {
        (x[i] as u32) < (y[i] as u32)
    }
}

/// Whether path `a` comes before path `b` (see `path_before`).
pub fn path_precedes(a: &str, b: &str) -> (r: bool)
    ensures
        r == path_before(a@, b@),
{
    let x = path_components(a);
    let y = path_components(b);
    let ghost xs = views(x@);
    let ghost ys = views(y@);
    let mut i: usize = 0;
    assert(xs.subrange(0, xs.len() as int) =~= xs);
    assert(ys.subrange(0, ys.len() as int) =~= ys);
    while i < x.len() && i < y.len() && crate::text::str_equals(x[i].as_str(), y[i].as_str())
        invariant
            i <= x@.len(),
            i <= y@.len(),
            xs == views(x@),
            ys == views(y@),
            path_before(a@, b@) == names_before(
                xs.subrange(i as int, xs.len() as int),
                ys.subrange(i as int, ys.len() as int),
            ),
        decreases x.len() - i,
    {
        assert(xs.subrange(i as int, xs.len() as int).drop_first() =~= xs.subrange(i + 1, xs.len() as int));
        assert(ys.subrange(i as int, ys.len() as int).drop_first() =~= ys.subrange(i + 1, ys.len() as int));
        i += 1;
    }
    if i == x.len() {
        i < y.len()
    } else if i == y.len() {
        false
    } else {
        component_precedes(x[i].as_str(), y[i].as_str())
    }
}

/// A name with no separator.
pub open spec fn no_sep(n: Seq<char>) -> bool {
    forall|i: int| 0 <= i < n.len() ==> n[i] != '/'
}

/// A component that is a name other than `.`.
pub open spec fn is_plain_name(n: Seq<char>) -> bool {
    n.len() > 0 && no_sep(n) && n != seq!['.']
}

/// Components as `components` yields them: the root only first, every other
/// one a non-empty name without separators.
pub open spec fn well_formed(comps: Seq<Seq<char>>) -> bool {
    forall|i: int|
        0 <= i < comps.len() ==> if #[trigger] comps[i] == seq!['/'] {
            i == 0
        } else {
            comps[i].len() > 0 && no_sep(comps[i])
        }
}

/// Components as `clean_fold` leaves them: the root only first, no `.`, and
/// `..` only at the start of a path that is not rooted.
pub open spec fn is_clean(out: Seq<Seq<char>>) -> bool {
    &&& forall|i: int|
        0 <= i < out.len() ==> (i == 0 && #[trigger] out[i] == seq!['/']) || is_plain_name(out[i])
    &&& forall|i: int| 0 < i < out.len() && #[trigger] out[i] == seq!['.', '.'] ==> out[i - 1] == seq!['.', '.']
}

proof fn lemma_split_names_well_formed(p: Seq<char>)
    ensures
        forall|i: int|
            0 <= i < split_names(p).0.len() ==> (#[trigger] split_names(p).0[i]).len() > 0 && no_sep(
                split_names(p).0[i],
            ),
        no_sep(split_names(p).1),
    decreases p.len(),
{
    if p.len() > 0 {
        lemma_split_names_well_formed(p.drop_last());
        let (done, cur) = split_names(p.drop_last());
        if p.last() != '/' {
            assert forall|i: int| 0 <= i < cur.push(p.last()).len() implies cur.push(p.last())[i] != '/' by {
                if i < cur.len() {
                    assert(cur.push(p.last())[i] == cur[i]);
                }
            }
        }
    }
}

pub proof fn lemma_components_well_formed(p: Seq<char>)
    ensures
        well_formed(components(p)),
{
    lemma_split_names_well_formed(p);
    let (done, cur) = split_names(p);
    let names = flush_name(done, cur, p.len() > 0 && p[0] == '/');
    assert forall|i: int| 0 <= i < names.len() implies (#[trigger] names[i]).len() > 0 && no_sep(names[i]) by {
        if i < done.len() {
            assert(names[i] == done[i]);
        }
    }
    let c = components(p);
    if p.len() > 0 && p[0] == '/' {
        assert forall|i: int| 0 <= i < c.len() implies if #[trigger] c[i] == seq!['/'] {
            i == 0
        } else {
            c[i].len() > 0 && no_sep(c[i])
        } by {
            if i > 0 {
                assert(c[i] == names[i - 1]);
                if c[i] == seq!['/'] {
                    assert(c[i][0] == '/');
                }
            }
        }
    } else {
        assert forall|i: int| 0 <= i < c.len() implies if #[trigger] c[i] == seq!['/'] {
            i == 0
        } else {
            c[i].len() > 0 && no_sep(c[i])
        } by {
            if c[i] == seq!['/'] {
                assert(c[i][0] == '/');
            }
        }
    }
}

proof fn lemma_fold_clean(comps: Seq<Seq<char>>)
    requires
        well_formed(comps),
    ensures
        is_clean(clean_fold(comps)),
    decreases comps.len(),
{
    if comps.len() > 0 {
        let pre = comps.drop_last();
        assert(well_formed(pre)) by {
            assert forall|i: int| 0 <= i < pre.len() implies if #[trigger] pre[i] == seq!['/'] {
                i == 0
            } else {
                pre[i].len() > 0 && no_sep(pre[i])
            } by {
                assert(pre[i] == comps[i]);
            }
        }
        lemma_fold_clean(pre);
        let out = clean_fold(pre);
        let c = comps.last();
        assert(comps[comps.len() - 1] == c);
        let r = clean_fold(comps);
        if c == seq!['.'] {
        } else if c == seq!['.', '.'] {
            if out.len() > 0 && out.last() == seq!['/'] {
            } else if out.len() > 0 && out.last() != seq!['.'] && out.last() != seq!['.', '.'] {
                assert forall|i: int| 0 <= i < r.len() implies (i == 0 && #[trigger] r[i] == seq!['/']) || is_plain_name(r[i]) by {
                    assert(r[i] == out[i]);
                }
                assert forall|i: int| 0 < i < r.len() && #[trigger] r[i] == seq!['.', '.'] implies r[i - 1] == seq!['.', '.'] by {
                    assert(r[i] == out[i]);
                    assert(r[i - 1] == out[i - 1]);
                }
            } else {
                assert(no_sep(c)) by {
                    assert(c[0] == '.');
                    assert(c[1] == '.');
                }
                if out.len() > 0 {
                    assert(is_plain_name(out.last()) || out.last() == seq!['/']);
                }
                assert forall|i: int| 0 <= i < r.len() implies (i == 0 && #[trigger] r[i] == seq!['/']) || is_plain_name(r[i]) by {
                    if i < out.len() {
                        assert(r[i] == out[i]);
                    }
                }
                assert forall|i: int| 0 < i < r.len() && #[trigger] r[i] == seq!['.', '.'] implies r[i - 1] == seq!['.', '.'] by {
                    if i < out.len() {
                        assert(r[i] == out[i]);
                    }
                    assert(r[i - 1] == out[i - 1]);
                }
            }
        } else {
            if c == seq!['/'] {
                assert(comps.len() - 1 == 0);
                assert(pre.len() == 0);
            }
            assert forall|i: int| 0 <= i < r.len() implies (i == 0 && #[trigger] r[i] == seq!['/']) || is_plain_name(r[i]) by {
                if i < out.len() {
                    assert(r[i] == out[i]);
                }
            }
            assert forall|i: int| 0 < i < r.len() && #[trigger] r[i] == seq!['.', '.'] implies r[i - 1] == seq!['.', '.'] by {
                if i < out.len() {
                    assert(r[i] == out[i]);
                    assert(r[i - 1] == out[i - 1]);
                }
            }
        }
    }
}

pub proof fn lemma_fold_of_clean(out: Seq<Seq<char>>)
    requires
        is_clean(out),
    ensures
        clean_fold(out) == out,
    decreases out.len(),
{
    if out.len() > 0 {
        let pre = out.drop_last();
        assert(is_clean(pre)) by {
            assert forall|i: int| 0 <= i < pre.len() implies (i == 0 && #[trigger] pre[i] == seq!['/']) || is_plain_name(pre[i]) by {
                assert(pre[i] == out[i]);
            }
            assert forall|i: int| 0 < i < pre.len() && #[trigger] pre[i] == seq!['.', '.'] implies pre[i - 1] == seq!['.', '.'] by {
                assert(pre[i] == out[i]);
                assert(pre[i - 1] == out[i - 1]);
            }
        }
        lemma_fold_of_clean(pre);
        let c = out.last();
        assert(out[out.len() - 1] == c);
        assert((out.len() - 1 == 0 && out[out.len() - 1] == seq!['/']) || is_plain_name(out[out.len() - 1]));
        if c == seq!['/'] {
            assert(c[0] == '/');
            assert(seq!['.'][0] == '.');
            assert(c != seq!['.']);
        }
        if c == seq!['.', '.'] && pre.len() > 0 {
            assert(pre.last() == out[out.len() - 2]);
        }
        assert(pre.push(c) =~= out);
    }
}

proof fn lemma_split_append_name(x: Seq<char>, n: Seq<char>)
    requires
        no_sep(n),
    ensures
        split_names(x + n) == (split_names(x).0, split_names(x).1 + n),
    decreases n.len(),
{
    if n.len() == 0 {
        assert(x + n =~= x);
        assert(split_names(x).1 + n =~= split_names(x).1);
    } else {
        let m = n.drop_last();
        assert(no_sep(m)) by {
            assert forall|i: int| 0 <= i < m.len() implies m[i] != '/' by {
                assert(m[i] == n[i]);
            }
        }
        lemma_split_append_name(x, m);
        assert((x + n).drop_last() =~= x + m);
        assert((x + n).last() == n.last());
        assert(n[n.len() - 1] != '/');
        assert((split_names(x).1 + m).push(n.last()) =~= split_names(x).1 + n);
    }
}

proof fn lemma_split_append_sep(x: Seq<char>)
    ensures
        split_names(x.push('/')) == (
            flush_name(split_names(x).0, split_names(x).1, x.push('/')[0] == '/'),
            Seq::<char>::empty(),
        ),
{
    assert(x.push('/').drop_last() =~= x);
}

/// The components other than the root.
pub open spec fn root_free(out: Seq<Seq<char>>) -> Seq<Seq<char>> {
    if out.len() > 0 && out[0] == seq!['/'] {
        out.drop_first()
    } else {
        out
    }
}

proof fn lemma_split_join(out: Seq<Seq<char>>)
    requires
        is_clean(out),
        out.len() > 0,
    ensures
        join_names(out).len() > 0,
        (join_names(out)[0] == '/') == (out[0] == seq!['/']),
        (join_names(out).last() == '/') == (out.len() == 1 && out[0] == seq!['/']),
        out.len() == 1 && out[0] == seq!['/'] ==> split_names(join_names(out)) == (
            Seq::<Seq<char>>::empty(),
            Seq::<char>::empty(),
        ),
        !(out.len() == 1 && out[0] == seq!['/']) ==> split_names(join_names(out)) == (
            root_free(out).drop_last(),
            root_free(out).last(),
        ),
    decreases out.len(),
{
    let s = join_names(out);
    let n = out.last();
    assert(out[out.len() - 1] == n);
    if out.len() == 1 {
        assert(out.drop_last() =~= Seq::<Seq<char>>::empty());
        assert(s == n);
        if n == seq!['/'] {
            assert(s =~= Seq::<char>::empty().push('/'));
            lemma_split_append_sep(Seq::<char>::empty());
        } else {
            assert(is_plain_name(n));
            lemma_split_append_name(Seq::<char>::empty(), n);
            assert(Seq::<char>::empty() + n =~= n);
            assert(Seq::<char>::empty() + n =~= n);
            assert(n[0] != '/');
            assert(n[n.len() - 1] != '/');
            assert(root_free(out) =~= out);
            assert(out.drop_last() =~= Seq::<Seq<char>>::empty());
        }
    } else {
        let pre = out.drop_last();
        assert(is_clean(pre)) by {
            assert forall|i: int| 0 <= i < pre.len() implies (i == 0 && #[trigger] pre[i] == seq!['/']) || is_plain_name(pre[i]) by {
                assert(pre[i] == out[i]);
            }
            assert forall|i: int| 0 < i < pre.len() && #[trigger] pre[i] == seq!['.', '.'] implies pre[i - 1] == seq!['.', '.'] by {
                assert(pre[i] == out[i]);
                assert(pre[i - 1] == out[i - 1]);
            }
        }
        lemma_split_join(pre);
        assert(is_plain_name(n)) by {
            assert((out.len() - 1 == 0 && out[out.len() - 1] == seq!['/']) || is_plain_name(out[out.len() - 1]));
        }
        assert(n[n.len() - 1] != '/');
        let sp = join_names(pre);
        assert(pre[0] == out[0]);
        assert(s == append_name(sp, n));
        if pre.len() == 1 && pre[0] == seq!['/'] {
            assert(s == sp + n);
            lemma_split_append_name(sp, n);
            assert(root_free(out) =~= seq![n]);
            assert((sp + n)[0] == sp[0]);
            assert((sp + n).last() == n.last());
        } else {
            let t = sp.push('/');
            assert(s =~= t + n);
            lemma_split_append_sep(sp);
            lemma_split_append_name(t, n);
            assert(t[0] == sp[0]);
            let rf = root_free(pre);
            assert(rf.len() > 0);
            assert(is_plain_name(rf.last())) by {
                if pre[0] == seq!['/'] {
                    assert(rf.last() == pre[pre.len() - 1]);
                    assert(pre.len() - 1 != 0);
                } else {
                    assert(rf.last() == pre[pre.len() - 1]);
                    if pre[pre.len() - 1] == seq!['/'] {
                        assert(pre.len() - 1 == 0);
                    }
                }
                assert((pre.len() - 1 == 0 && pre[pre.len() - 1] == seq!['/']) || is_plain_name(pre[pre.len() - 1]));
            }
            assert(rf.drop_last().push(rf.last()) =~= rf);
            assert(root_free(out) =~= rf.push(n));
            assert(rf.push(n).drop_last() =~= rf);
            assert((t + n)[0] == t[0]);
            assert((t + n).last() == n.last());
        }
    }
}

/// Splitting a path made of clean components gives those components back.
pub proof fn lemma_components_join(out: Seq<Seq<char>>)
    requires
        is_clean(out),
        out.len() > 0,
    ensures
        components(join_names(out)) == out,
{
    lemma_split_join(out);
    let s = join_names(out);
    if out.len() == 1 && out[0] == seq!['/'] {
        assert(components(s) =~= seq![seq!['/']] + Seq::<Seq<char>>::empty());
        assert(out =~= seq![seq!['/']]);
    } else {
        let rf = root_free(out);
        assert(rf.len() > 0);
        assert(is_plain_name(rf.last())) by {
            assert(rf.last() == out[out.len() - 1]);
            assert((out.len() - 1 == 0 && out[out.len() - 1] == seq!['/']) || is_plain_name(out[out.len() - 1]));
            if out[0] == seq!['/'] {
                assert(out.len() - 1 != 0);
            }
        }
        assert(rf.drop_last().push(rf.last()) =~= rf);
        if out[0] == seq!['/'] {
            assert(seq![seq!['/']] + rf =~= out);
        }
    }
}

/// Normalising a normalised path leaves it as it is.
pub proof fn lemma_cleaned_idempotent(p: Seq<char>)
    ensures
        cleaned(cleaned(p)) == cleaned(p),
{
    lemma_components_well_formed(p);
    let out = clean_fold(components(p));
    lemma_fold_clean(components(p));
    if out.len() == 0 {
        let dot = seq!['.'];
        assert(dot.drop_last() =~= Seq::<char>::empty());
        lemma_split_append_name(Seq::<char>::empty(), dot);
        assert(Seq::<char>::empty() + dot =~= dot);
        assert(components(dot) =~= seq![dot]);
        assert(seq![dot].drop_last() =~= Seq::<Seq<char>>::empty());
        assert(seq![dot].last() == dot);
        assert(clean_fold(seq![dot].drop_last()) == Seq::<Seq<char>>::empty());
        assert(clean_fold(seq![dot]) =~= Seq::<Seq<char>>::empty());
    } else {
        lemma_components_join(out);
        lemma_fold_of_clean(out);
    }
}

proof fn lemma_components_dot()
    ensures
        components(seq!['.']) == seq![seq!['.']],
{
    let dot = seq!['.'];
    assert(dot.drop_last() =~= Seq::<char>::empty());
    lemma_split_append_name(Seq::<char>::empty(), dot);
    assert(Seq::<char>::empty() + dot =~= dot);
    assert(components(dot) =~= seq![dot]);
}

/// Normalised paths with the same components are the same text: grouping
/// normalised paths by their text groups them as paths.
pub proof fn lemma_normalised_paths_by_components(x: Seq<char>, y: Seq<char>)
    requires
        components(cleaned(x)) == components(cleaned(y)),
    ensures
        cleaned(x) == cleaned(y),
{
    lemma_components_well_formed(x);
    lemma_components_well_formed(y);
    lemma_fold_clean(components(x));
    lemma_fold_clean(components(y));
    lemma_components_dot();
    let ox = clean_fold(components(x));
    let oy = clean_fold(components(y));
    if ox.len() > 0 {
        lemma_components_join(ox);
        assert((0 == 0 && ox[0] == seq!['/']) || is_plain_name(ox[0]));
        if ox[0] == seq!['/'] {
            assert(ox[0][0] == '/');
        }
    }
    if oy.len() > 0 {
        lemma_components_join(oy);
        assert((0 == 0 && oy[0] == seq!['/']) || is_plain_name(oy[0]));
        if oy[0] == seq!['/'] {
            assert(oy[0][0] == '/');
        }
    }
    if ox.len() > 0 && oy.len() == 0 {
        assert(ox == seq![seq!['.']]);
        assert(ox[0] == seq!['.']);
    }
    if ox.len() == 0 && oy.len() > 0 {
        assert(oy == seq![seq!['.']]);
        assert(oy[0] == seq!['.']);
    }
}

} // verus!
