//! A stable insertion sort, and its definition as a sequence function.
use vstd::prelude::*;
use crate::text::views;

verus! {

/// `s` with `x` inserted before the trailing run of elements that `x` must
/// precede.
pub open spec fn insert_sorted<T>(s: Seq<T>, x: T, before: spec_fn(T, T) -> bool) -> Seq<T>
    decreases s.len(),
{
    if s.len() == 0 {
        seq![x]
    } else if before(x, s.last()) {
        insert_sorted(s.drop_last(), x, before).push(s.last())
    } else {
        s.push(x)
    }
}

/// `s` sorted by stable insertion under the strict order `before`: equal
/// elements keep their relative order.
pub open spec fn sorted_by<T>(s: Seq<T>, before: spec_fn(T, T) -> bool) -> Seq<T>
    decreases s.len(),
{
    if s.len() == 0 {
        s
    } else {
        insert_sorted(sorted_by(s.drop_last(), before), s.last(), before)
    }
}

proof fn lemma_insert_at<T>(s: Seq<T>, x: T, j: int, before: spec_fn(T, T) -> bool)
    requires
        0 <= j <= s.len(),
        forall|m: int| j <= m < s.len() ==> before(x, #[trigger] s[m]),
        j > 0 ==> !before(x, s[j - 1]),
    ensures
        insert_sorted(s, x, before) == s.insert(j, x),
    decreases s.len(),
{
    if s.len() == 0 {
        assert(s.insert(j, x) =~= seq![x]);
    } else if j == s.len() {
        assert(s.insert(j, x) =~= s.push(x));
    } else {
        let t = s.drop_last();
        assert forall|m: int| j <= m < t.len() implies before(x, #[trigger] t[m]) by {
            assert(t[m] == s[m]);
        }
        assert(before(x, s[s.len() - 1]));
        lemma_insert_at(t, x, j, before);
        assert(t.insert(j, x).push(s.last()) =~= s.insert(j, x));
    }
}

/// `v` sorted stably by `before` (consulted with `ctx`), which decides `spec_before`.
pub fn stable_sort<T, C, F: Fn(&C, &T, &T) -> bool>(
    v: Vec<T>,
    ctx: &C,
    before: F,
    Ghost(spec_before): Ghost<spec_fn(T, T) -> bool>,
) -> (r: Vec<T>)
    requires
        forall|a: &T, b: &T| before.requires((ctx, a, b)),
        forall|a: &T, b: &T, o: bool| before.ensures((ctx, a, b), o) ==> o == spec_before(*a, *b),
    ensures
        r@ == sorted_by(v@, spec_before),
{
    let ghost orig = v@;
    let ghost mut k: int = 0;
    let mut rest = v;
    let mut out: Vec<T> = Vec::new();
    assert(orig.subrange(0, 0) =~= Seq::<T>::empty());
    assert(orig.subrange(0, orig.len() as int) =~= orig);
    while rest.len() > 0
        invariant
            0 <= k <= orig.len(),
            rest@ == orig.subrange(k, orig.len() as int),
            out@ == sorted_by(orig.subrange(0, k), spec_before),
            forall|a: &T, b: &T| before.requires((ctx, a, b)),
            forall|a: &T, b: &T, o: bool| before.ensures((ctx, a, b), o) ==> o == spec_before(*a, *b),
        decreases rest.len(),
    {
        let x = rest.remove(0);
        let mut j = out.len();
        while j > 0 && before(ctx, &x, &out[j - 1])
            invariant
                j <= out@.len(),
                forall|m: int| j <= m < out@.len() ==> spec_before(x, #[trigger] out@[m]),
                forall|a: &T, b: &T| before.requires((ctx, a, b)),
                forall|a: &T, b: &T, o: bool| before.ensures((ctx, a, b), o) ==> o == spec_before(*a, *b),
            decreases j,
        {
            j -= 1;
        }
        proof {
            lemma_insert_at(out@, x, j as int, spec_before);
            assert(orig.subrange(0, k + 1).drop_last() =~= orig.subrange(0, k));
            assert(orig[k] == x);
            assert(rest@ =~= orig.subrange(k + 1, orig.len() as int));
            k = k + 1;
        }
        out.insert(j, x);
    }
    out
}

proof fn lemma_insert_sorted_contains<T>(s: Seq<T>, x: T, before: spec_fn(T, T) -> bool)
    ensures
        forall|y: T| #[trigger] insert_sorted(s, x, before).contains(y) <==> (s.contains(y) || y == x),
        insert_sorted(s, x, before).len() == s.len() + 1,
    decreases s.len(),
{
    if s.len() > 0 && before(x, s.last()) {
        let t = s.drop_last();
        lemma_insert_sorted_contains(t, x, before);
        let u = insert_sorted(t, x, before);
        let r = insert_sorted(s, x, before);
        assert(r == u.push(s.last()));
        assert forall|y: T| r.contains(y) <==> (s.contains(y) || y == x) by {
            if r.contains(y) {
                let i = choose|i: int| 0 <= i < r.len() && r[i] == y;
                if i < r.len() - 1 {
                    assert(u[i] == y);
                    assert(u.contains(y));
                    if y != x {
                        assert(t.contains(y));
                        let k = choose|k: int| 0 <= k < t.len() && t[k] == y;
                        assert(s[k] == y);
                    }
                } else {
                    assert(s[s.len() - 1] == y);
                }
            }
            if s.contains(y) {
                let k = choose|k: int| 0 <= k < s.len() && s[k] == y;
                if k < s.len() - 1 {
                    assert(t[k] == y);
                    assert(t.contains(y));
                    assert(u.contains(y));
                    let i = choose|i: int| 0 <= i < u.len() && u[i] == y;
                    assert(r[i] == y);
                } else {
                    assert(r[r.len() - 1] == y);
                }
            }
            if y == x {
                assert(u.contains(x));
                let i = choose|i: int| 0 <= i < u.len() && u[i] == x;
                assert(r[i] == x);
            }
        }
    } else if s.len() > 0 {
        let r = s.push(x);
        assert forall|y: T| r.contains(y) <==> (s.contains(y) || y == x) by {
            if r.contains(y) {
                let i = choose|i: int| 0 <= i < r.len() && r[i] == y;
                if i < s.len() {
                    assert(s[i] == y);
                }
            }
            if s.contains(y) {
                let k = choose|k: int| 0 <= k < s.len() && s[k] == y;
                assert(r[k] == y);
            }
            if y == x {
                assert(r[s.len() as int] == x);
            }
        }
    } else {
        assert forall|y: T| seq![x].contains(y) <==> y == x by {
            if y == x {
                assert(seq![x][0] == x);
            }
        }
    }
}

/// Sorting keeps exactly the elements it was given, as many as it was given.
pub proof fn lemma_sorted_by_elements<T>(s: Seq<T>, before: spec_fn(T, T) -> bool)
    ensures
        forall|y: T| #[trigger] sorted_by(s, before).contains(y) <==> s.contains(y),
        sorted_by(s, before).len() == s.len(),
    decreases s.len(),
{
    if s.len() > 0 {
        let t = s.drop_last();
        lemma_sorted_by_elements(t, before);
        lemma_insert_sorted_contains(sorted_by(t, before), s.last(), before);
        assert forall|y: T| sorted_by(s, before).contains(y) <==> s.contains(y) by {
            if s.contains(y) && y != s.last() {
                let k = choose|k: int| 0 <= k < s.len() && s[k] == y;
                assert(t[k] == y);
            }
            if t.contains(y) {
                let k = choose|k: int| 0 <= k < t.len() && t[k] == y;
                assert(s[k] == y);
            }
            if y == s.last() {
                assert(s[s.len() - 1] == y);
            }
        }
    }
}

/// Sorting strings by an order that depends on their characters alone sorts
/// their character views the same way.
pub proof fn lemma_views_sorted(
    s: Seq<String>,
    by_string: spec_fn(String, String) -> bool,
    by_chars: spec_fn(Seq<char>, Seq<char>) -> bool,
)
    requires
        forall|a: String, b: String| by_string(a, b) == by_chars(a@, b@),
    ensures
        views(sorted_by(s, by_string)) == sorted_by(views(s), by_chars),
    decreases s.len(),
{
    if s.len() > 0 {
        lemma_views_sorted(s.drop_last(), by_string, by_chars);
        assert(views(s.drop_last()) =~= views(s).drop_last());
        lemma_views_insert(sorted_by(s.drop_last(), by_string), s.last(), by_string, by_chars);
    }
}

proof fn lemma_views_insert(
    s: Seq<String>,
    x: String,
    by_string: spec_fn(String, String) -> bool,
    by_chars: spec_fn(Seq<char>, Seq<char>) -> bool,
)
    requires
        forall|a: String, b: String| by_string(a, b) == by_chars(a@, b@),
    ensures
        views(insert_sorted(s, x, by_string)) == insert_sorted(views(s), x@, by_chars),
    decreases s.len(),
{
    if s.len() > 0 {
        lemma_views_insert(s.drop_last(), x, by_string, by_chars);
        assert(views(s.drop_last()) =~= views(s).drop_last());
        assert(views(s.push(x)) =~= views(s).push(x@));
        let u = insert_sorted(s.drop_last(), x, by_string);
        assert(views(u.push(s.last())) =~= views(u).push(s.last()@));
    } else {
        assert(views(seq![x]) =~= seq![x@]);
    }
}

} // verus!
