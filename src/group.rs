//! Grouping records by a path key: the distinct keys in path order, and the
//! positions of the records that carry a given key. Keys are compared as
//! text; for normalised paths, as a scan reports them, that is comparing them
//! as paths (`lemma_normalised_paths_by_components`).
use vstd::prelude::*;
use vstd::hash_set::StringHashSet;
use crate::scan::{path_order, string_before, string_path_order};
use crate::sort::{lemma_views_sorted, sorted_by, stable_sort};
use crate::text::{str_equals, views};

verus! {

/// The elements of `s` without repeats, each where it first occurs.
pub open spec fn distinct(s: Seq<Seq<char>>) -> Seq<Seq<char>>
    decreases s.len(),
{
    if s.len() == 0 {
        s
    } else if s.drop_last().contains(s.last()) {
        distinct(s.drop_last())
    } else {
        distinct(s.drop_last()).push(s.last())
    }
}

/// The distinct keys, in path order.
pub open spec fn group_keys(keys: Seq<Seq<char>>) -> Seq<Seq<char>> {
    sorted_by(distinct(keys), path_order())
}

proof fn lemma_push_contains(s: Seq<Seq<char>>, x: Seq<char>)
    ensures
        forall|y: Seq<char>| #[trigger] s.push(x).contains(y) <==> (s.contains(y) || y == x),
{
    assert forall|y: Seq<char>| #[trigger] s.push(x).contains(y) <==> (s.contains(y) || y == x) by {
        if s.push(x).contains(y) {
            let i = choose|i: int| 0 <= i < s.len() + 1 && s.push(x)[i] == y;
            if i < s.len() {
                assert(s[i] == y);
            }
        }
        if s.contains(y) {
            let i = choose|i: int| 0 <= i < s.len() && s[i] == y;
            assert(s.push(x)[i] == y);
        }
        if y == x {
            assert(s.push(x)[s.len() as int] == y);
        }
    }
}

/// The distinct keys, in path order (see `group_keys`).
pub fn sorted_distinct(keys: &Vec<String>) -> (r: Vec<String>)
    ensures
        views(r@) == group_keys(views(keys@)),
{
    let ghost k = views(keys@);
    let mut seen = StringHashSet::new();
    let mut out: Vec<String> = Vec::new();
    for i in 0..keys.len()
        invariant
            k == views(keys@),
            forall|x: Seq<char>| #[trigger] seen@.contains(x) <==> k.subrange(0, i as int).contains(x),
            views(out@) == distinct(k.subrange(0, i as int)),
    {
        let ghost pre = k.subrange(0, i as int);
        assert(k.subrange(0, i + 1) =~= pre.push(k[i as int]));
        assert(k.subrange(0, i + 1).drop_last() =~= pre);
        proof {
            lemma_push_contains(pre, k[i as int]);
        }
        if !seen.contains(keys[i].as_str()) {
            let ghost before = out@;
            out.push(keys[i].clone());
            assert(views(out@) =~= views(before).push(keys@[i as int]@));
            seen.insert(keys[i].clone());
        }
    }
    assert(k.subrange(0, k.len() as int) =~= k);
    let ghost unsorted = out@;
    let r = stable_sort(out, &(), string_before, Ghost(string_path_order()));
    proof {
        lemma_views_sorted(unsorted, string_path_order(), path_order());
    }
    r
}

/// The positions among the first `n` keys that hold `key`, in order.
pub open spec fn positions(keys: Seq<Seq<char>>, key: Seq<char>, n: nat) -> Seq<usize>
    decreases n,
{
    if n == 0 {
        Seq::empty()
    } else if keys[n - 1] == key {
        positions(keys, key, (n - 1) as nat).push((n - 1) as usize)
    } else {
        positions(keys, key, (n - 1) as nat)
    }
}

/// The positions of the keys that equal `key` (see `positions`).
pub fn positions_of(keys: &Vec<String>, key: &str) -> (r: Vec<usize>)
    ensures
        r@ == positions(views(keys@), key@, keys@.len()),
        forall|j: int| 0 <= j < r@.len() ==> #[trigger] r@[j] < keys@.len(),
{
    let mut out: Vec<usize> = Vec::new();
    for i in 0..keys.len()
        invariant
            out@ == positions(views(keys@), key@, i as nat),
            forall|j: int| 0 <= j < out@.len() ==> #[trigger] out@[j] < i,
    {
        assert(views(keys@)[i as int] == keys@[i as int]@);
        if str_equals(keys[i].as_str(), key) {
            out.push(i);
        }
    }
    out
}

} // verus!
