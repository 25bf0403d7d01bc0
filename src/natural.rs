//! Natural ordering of names and paths: runs of ASCII digits compare by
//! numeric value, every other character by code point.
use vstd::prelude::*;
use std::cmp::Ordering;
use crate::paths::{components, path_components};
use crate::text::{chars_of, views};

verus! {

pub open spec fn is_digit(c: char) -> bool {
    48 <= (c as u32) <= 57
}

/// The length of the run of digits that `s` starts with.
pub open spec fn digit_run(s: Seq<char>) -> nat
    decreases s.len(),
{
    if s.len() > 0 && is_digit(s[0]) {
        1 + digit_run(s.drop_first())
    } else {
        0
    }
}

/// `s` without its leading zeros.
pub open spec fn strip_zeros(s: Seq<char>) -> Seq<char>
    decreases s.len(),
{
    if s.len() > 0 && s[0] == '0' {
        strip_zeros(s.drop_first())
    } else {
        s
    }
}

/// Code-point order on strings, a proper prefix first.
pub open spec fn chars_cmp(a: Seq<char>, b: Seq<char>) -> Ordering
    decreases a.len(),
{
    if a.len() == 0 && b.len() == 0 {
        Ordering::Equal
    } else if a.len() == 0 {
        Ordering::Less
    } else if b.len() == 0 {
        Ordering::Greater
    } else if a[0] != b[0] {
        if (a[0] as u32) < (b[0] as u32) {
            Ordering::Less
        } else {
            Ordering::Greater
        }
    } else {
        chars_cmp(a.drop_first(), b.drop_first())
    }
}

/// Order of two digit strings by the numbers they write: without leading
/// zeros, the shorter is smaller, and equal lengths compare digit by digit.
pub open spec fn numeric_cmp(x: Seq<char>, y: Seq<char>) -> Ordering {
    let a = strip_zeros(x);
    let b = strip_zeros(y);
    if a.len() < b.len() {
        Ordering::Less
    } else if a.len() > b.len() {
        Ordering::Greater
    } else {
        chars_cmp(a, b)
    }
}

/// Natural order: where both strings continue with a digit, the two digit runs
/// compare by value (equal values move on past both runs); otherwise the next
/// characters compare by code point; a string that ends first is smaller.
pub open spec fn natural_cmp(a: Seq<char>, b: Seq<char>) -> Ordering
    decreases a.len() + b.len(),
    via natural_cmp_decreases
{
    if a.len() == 0 && b.len() == 0 {
        Ordering::Equal
    } else if b.len() == 0 {
        Ordering::Greater
    } else if a.len() == 0 {
        Ordering::Less
    } else if is_digit(a[0]) && is_digit(b[0]) {
        let la = 1 + digit_run(a.drop_first()) as int;
        let lb = 1 + digit_run(b.drop_first()) as int;
        match numeric_cmp(a.subrange(0, la), b.subrange(0, lb)) {
            Ordering::Equal => natural_cmp(a.subrange(la, a.len() as int), b.subrange(lb, b.len() as int)),
            o => o,
        }
    } else if a[0] == b[0] {
        natural_cmp(a.drop_first(), b.drop_first())
    } else if (a[0] as u32) < (b[0] as u32) {
        Ordering::Less
    } else {
        Ordering::Greater
    }
}

proof fn lemma_digit_run_bound(s: Seq<char>)
    ensures
        digit_run(s) <= s.len(),
    decreases s.len(),
{
    if s.len() > 0 && is_digit(s[0]) {
        lemma_digit_run_bound(s.drop_first());
    }
}

#[via_fn]
proof fn natural_cmp_decreases(a: Seq<char>, b: Seq<char>) {
    if a.len() > 0 && b.len() > 0 {
        lemma_digit_run_bound(a.drop_first());
        lemma_digit_run_bound(b.drop_first());
    }
}

proof fn lemma_digit_run(s: Seq<char>, k: int)
    requires
        0 <= k <= s.len(),
        forall|m: int| 0 <= m < k ==> is_digit(#[trigger] s[m]),
        k == s.len() || !is_digit(s[k]),
    ensures
        digit_run(s) == k,
    decreases k,
{
    if k > 0 {
        let t = s.drop_first();
        assert forall|m: int| 0 <= m < k - 1 implies is_digit(#[trigger] t[m]) by {
            assert(t[m] == s[m + 1]);
        }
        if k < s.len() {
            assert(t[k - 1] == s[k]);
        }
        lemma_digit_run(t, k - 1);
    }
}

fn digit_char(c: char) -> (r: bool)
    ensures
        r == is_digit(c),
{
    let v = code_point(c);
    48 <= v && v <= 57
}

/// End of the digit run that starts at `from`.
fn run_end(cs: &Vec<char>, from: usize) -> (r: usize)
    requires
        from < cs@.len(),
        is_digit(cs@[from as int]),
    ensures
        from < r <= cs@.len(),
        digit_run(cs@.subrange(from as int, cs@.len() as int).drop_first()) + 1 == r - from,
{
    let len = cs.len();
    let mut k = from + 1;
    while k < len && digit_char(cs[k])
        invariant
            len == cs@.len(),
            from < k <= cs@.len(),
            forall|m: int| from <= m < k ==> is_digit(#[trigger] cs@[m]),
        decreases cs.len() - k,
    {
        k += 1;
    }
    proof {
        let t = cs@.subrange(from as int, cs@.len() as int).drop_first();
        assert forall|m: int| 0 <= m < k - from - 1 implies is_digit(#[trigger] t[m]) by {
            assert(t[m] == cs@[from + 1 + m]);
        }
        if k < cs@.len() {
            assert(t[k - from - 1] == cs@[k as int]);
        }
        lemma_digit_run(t, k - from - 1);
    }
    k
}

/// Index of the first non-zero digit in `cs[from..to]`, or `to`.
fn skip_zeros(cs: &Vec<char>, from: usize, to: usize) -> (r: usize)
    requires
        from <= to <= cs@.len(),
    ensures
        from <= r <= to,
        strip_zeros(cs@.subrange(from as int, to as int)) == cs@.subrange(r as int, to as int),
{
    let mut k = from;
    while k < to && cs[k] == '0'
        invariant
            from <= k <= to <= cs@.len(),
            strip_zeros(cs@.subrange(from as int, to as int)) == strip_zeros(cs@.subrange(k as int, to as int)),
        decreases to - k,
    {
        assert(cs@.subrange(k as int, to as int).drop_first() =~= cs@.subrange(k + 1, to as int));
        k += 1;
    }
    k
}

/// The code point of `c`.
fn code_point(c: char) -> (r: u32)
    ensures
        r == c as u32,
{
    c as u32
}

/// Code-point comparison of `a[i..i+n]` with `b[j..j+n]`.
fn chars_cmp_exec(a: &Vec<char>, i: usize, b: &Vec<char>, j: usize, n: usize) -> (r: Ordering)
    requires
        i + n <= a@.len(),
        j + n <= b@.len(),
    ensures
        r == chars_cmp(a@.subrange(i as int, i + n), b@.subrange(j as int, j + n)),
{
    let la = a.len();
    let lb = b.len();
    let mut k: usize = 0;
    while k < n
        invariant
            la == a@.len(),
            lb == b@.len(),
            k <= n,
            i + n <= a@.len(),
            j + n <= b@.len(),
            chars_cmp(a@.subrange(i as int, i + n), b@.subrange(j as int, j + n)) == chars_cmp(
                a@.subrange(i + k, i + n),
                b@.subrange(j + k, j + n),
            ),
        decreases n - k,
    {
        let x = a[i + k];
        let y = b[j + k];
        if x != y {
            return if code_point(x) < code_point(y) {
                Ordering::Less
            } else {
                Ordering::Greater
            };
        }
        assert(a@.subrange(i + k, i + n).drop_first() =~= a@.subrange(i + k + 1, i + n));
        assert(b@.subrange(j + k, j + n).drop_first() =~= b@.subrange(j + k + 1, j + n));
        k += 1;
    }
    Ordering::Equal
}

/// Natural comparison of two names (see `natural_cmp`).
pub fn natural_lexical_cmp_revised(s1: &str, s2: &str) -> (r: Ordering)
    ensures
        r == natural_cmp(s1@, s2@),
{
    let a = chars_of(s1);
    let b = chars_of(s2);
    let mut i: usize = 0;
    let mut j: usize = 0;
    assert(a@.subrange(0, a@.len() as int) =~= a@);
    assert(b@.subrange(0, b@.len() as int) =~= b@);
    loop
        invariant
            i <= a@.len(),
            j <= b@.len(),
            natural_cmp(s1@, s2@) == natural_cmp(
                a@.subrange(i as int, a@.len() as int),
                b@.subrange(j as int, b@.len() as int),
            ),
        decreases a@.len() - i + b@.len() - j,
    {
        let ghost x = a@.subrange(i as int, a@.len() as int);
        let ghost y = b@.subrange(j as int, b@.len() as int);
        if i == a.len() && j == b.len() {
            return Ordering::Equal;
        }
        if j == b.len() {
            return Ordering::Greater;
        }
        if i == a.len() {
            return Ordering::Less;
        }
        assert(x[0] == a@[i as int]);
        assert(y[0] == b@[j as int]);
        if digit_char(a[i]) && digit_char(b[j]) {
            let ei = run_end(&a, i);
            let ej = run_end(&b, j);
            let zi = skip_zeros(&a, i, ei);
            let zj = skip_zeros(&b, j, ej);
            assert(x.subrange(0, ei - i) =~= a@.subrange(i as int, ei as int));
            assert(y.subrange(0, ej - j) =~= b@.subrange(j as int, ej as int));
            let o = if ei - zi < ej - zj {
                Ordering::Less
            } else if ei - zi > ej - zj {
                Ordering::Greater
            } else {
                chars_cmp_exec(&a, zi, &b, zj, ei - zi)
            };
            match o {
                Ordering::Equal => {
                    assert(x.subrange(ei - i, x.len() as int) =~= a@.subrange(ei as int, a@.len() as int));
                    assert(y.subrange(ej - j, y.len() as int) =~= b@.subrange(ej as int, b@.len() as int));
                    i = ei;
                    j = ej;
                },
                _ => {
                    return o;
                },
            }
        } else if a[i] == b[j] {
            assert(x.drop_first() =~= a@.subrange(i + 1, a@.len() as int));
            assert(y.drop_first() =~= b@.subrange(j + 1, b@.len() as int));
            i += 1;
            j += 1;
        } else if code_point(a[i]) < code_point(b[j]) {
            return Ordering::Less;
        } else {
            return Ordering::Greater;
        }
    }
}

/// Natural order on component sequences: component by component, a proper
/// prefix first.
pub open spec fn components_natural_cmp(a: Seq<Seq<char>>, b: Seq<Seq<char>>) -> Ordering
    decreases a.len(),
{
    if a.len() == 0 && b.len() == 0 {
        Ordering::Equal
    } else if a.len() == 0 {
        Ordering::Less
    } else if b.len() == 0 {
        Ordering::Greater
    } else {
        match natural_cmp(a[0], b[0]) {
            Ordering::Equal => components_natural_cmp(a.drop_first(), b.drop_first()),
            o => o,
        }
    }
}

/// Natural order on paths, component by component.
pub open spec fn path_natural_cmp(a: Seq<char>, b: Seq<char>) -> Ordering {
    components_natural_cmp(components(a), components(b))
}

/// Natural comparison of two paths (see `path_natural_cmp`).
pub fn compare_paths_naturally(a: &str, b: &str) -> (r: Ordering)
    ensures
        r == path_natural_cmp(a@, b@),
{
    let x = path_components(a);
    let y = path_components(b);
    let ghost xs = views(x@);
    let ghost ys = views(y@);
    let mut i: usize = 0;
    assert(xs.subrange(0, xs.len() as int) =~= xs);
    assert(ys.subrange(0, ys.len() as int) =~= ys);
    loop
        invariant
            i <= x@.len(),
            i <= y@.len(),
            xs == views(x@),
            ys == views(y@),
            path_natural_cmp(a@, b@) == components_natural_cmp(
                xs.subrange(i as int, xs.len() as int),
                ys.subrange(i as int, ys.len() as int),
            ),
        decreases x@.len() - i,
    {
        if i == x.len() && i == y.len() {
            return Ordering::Equal;
        }
        if i == x.len() {
            return Ordering::Less;
        }
        if i == y.len() {
            return Ordering::Greater;
        }
        match natural_lexical_cmp_revised(x[i].as_str(), y[i].as_str()) {
            Ordering::Equal => {
                assert(xs.subrange(i as int, xs.len() as int).drop_first() =~= xs.subrange(i + 1, xs.len() as int));
                assert(ys.subrange(i as int, ys.len() as int).drop_first() =~= ys.subrange(i + 1, ys.len() as int));
                i += 1;
            },
            o => {
                return o;
            },
        }
    }
}

/// The value of a decimal digit.
pub open spec fn digit_value(c: char) -> int {
    (c as u32) - 48
}

/// The number that a string of decimal digits writes.
pub open spec fn digits_value(s: Seq<char>) -> int
    decreases s.len(),
{
    if s.len() == 0 {
        0
    } else {
        digits_value(s.drop_last()) * 10 + digit_value(s.last())
    }
}

pub open spec fn all_digits(s: Seq<char>) -> bool {
    forall|i: int| 0 <= i < s.len() ==> is_digit(#[trigger] s[i])
}

/// Characters with the same code point are the same.
proof fn lemma_code_point_injective(a: char, b: char)
    requires
        (a as u32) == (b as u32),
    ensures
        a == b,
{
}

pub open spec fn pow10(n: nat) -> int
    decreases n,
{
    if n == 0 {
        1
    } else {
        10 * pow10((n - 1) as nat)
    }
}

proof fn lemma_pow10_monotone(a: nat, b: nat)
    requires
        a <= b,
    ensures
        1 <= pow10(a) <= pow10(b),
    decreases b,
{
    if b > 0 {
        if a < b {
            lemma_pow10_monotone(a, (b - 1) as nat);
        } else {
            lemma_pow10_monotone((a - 1) as nat, (b - 1) as nat);
        }
    }
}

proof fn lemma_value_bound(s: Seq<char>)
    requires
        all_digits(s),
    ensures
        0 <= digits_value(s) < pow10(s.len()),
    decreases s.len(),
{
    if s.len() > 0 {
        let t = s.drop_last();
        assert(all_digits(t)) by {
            assert forall|i: int| 0 <= i < t.len() implies is_digit(#[trigger] t[i]) by {
                assert(t[i] == s[i]);
            }
        }
        lemma_value_bound(t);
        assert(is_digit(s[s.len() - 1]));
        let v = digits_value(t);
        let d = digit_value(s.last());
        let p = pow10(t.len());
        assert(0 <= d <= 9);
        assert(v * 10 + d < 10 * p) by (nonlinear_arith)
            requires
                0 <= v < p,
                0 <= d <= 9,
        ;
    }
}

proof fn lemma_value_front(s: Seq<char>)
    requires
        s.len() > 0,
    ensures
        digits_value(s) == digit_value(s[0]) * pow10((s.len() - 1) as nat) + digits_value(s.drop_first()),
    decreases s.len(),
{
    if s.len() == 1 {
        assert(s.drop_last() =~= Seq::<char>::empty());
        assert(s.drop_first() =~= Seq::<char>::empty());
    } else {
        let t = s.drop_last();
        lemma_value_front(t);
        assert(t.drop_first() =~= s.drop_first().drop_last());
        assert(t[0] == s[0]);
        assert(s.drop_first().last() == s.last());
        let d0 = digit_value(s[0]);
        let p = pow10((t.len() - 1) as nat);
        let r = digits_value(t.drop_first());
        let dl = digit_value(s.last());
        assert((d0 * p + r) * 10 + dl == d0 * (10 * p) + (r * 10 + dl)) by (nonlinear_arith);
    }
}

proof fn lemma_strip_zeros_value(s: Seq<char>)
    requires
        all_digits(s),
    ensures
        digits_value(strip_zeros(s)) == digits_value(s),
        all_digits(strip_zeros(s)),
        strip_zeros(s).len() > 0 ==> strip_zeros(s)[0] != '0',
    decreases s.len(),
{
    if s.len() > 0 && s[0] == '0' {
        let t = s.drop_first();
        assert(all_digits(t)) by {
            assert forall|i: int| 0 <= i < t.len() implies is_digit(#[trigger] t[i]) by {
                assert(t[i] == s[i + 1]);
            }
        }
        lemma_strip_zeros_value(t);
        lemma_value_front(s);
        assert(digit_value('0') == 0);
    }
}

proof fn lemma_value_lower(s: Seq<char>)
    requires
        s.len() > 0,
        all_digits(s),
        s[0] != '0',
    ensures
        digits_value(s) >= pow10((s.len() - 1) as nat),
{
    lemma_value_front(s);
    let t = s.drop_first();
    assert(all_digits(t)) by {
        assert forall|i: int| 0 <= i < t.len() implies is_digit(#[trigger] t[i]) by {
            assert(t[i] == s[i + 1]);
        }
    }
    lemma_value_bound(t);
    assert(is_digit(s[0]));
    let d = digit_value(s[0]);
    if d < 1 {
        lemma_code_point_injective(s[0], '0');
    }
    let p = pow10((s.len() - 1) as nat);
    lemma_pow10_monotone(0, (s.len() - 1) as nat);
    assert(d * p >= p) by (nonlinear_arith)
        requires
            d >= 1,
            p >= 1,
    ;
}

proof fn lemma_chars_cmp_value(a: Seq<char>, b: Seq<char>)
    requires
        a.len() == b.len(),
        all_digits(a),
        all_digits(b),
    ensures
        (chars_cmp(a, b) == Ordering::Less) == (digits_value(a) < digits_value(b)),
        (chars_cmp(a, b) == Ordering::Equal) == (digits_value(a) == digits_value(b)),
        (chars_cmp(a, b) == Ordering::Greater) == (digits_value(a) > digits_value(b)),
    decreases a.len(),
{
    if a.len() > 0 {
        let ta = a.drop_first();
        let tb = b.drop_first();
        assert(all_digits(ta)) by {
            assert forall|i: int| 0 <= i < ta.len() implies is_digit(#[trigger] ta[i]) by {
                assert(ta[i] == a[i + 1]);
            }
        }
        assert(all_digits(tb)) by {
            assert forall|i: int| 0 <= i < tb.len() implies is_digit(#[trigger] tb[i]) by {
                assert(tb[i] == b[i + 1]);
            }
        }
        lemma_value_front(a);
        lemma_value_front(b);
        lemma_value_bound(ta);
        lemma_value_bound(tb);
        assert(is_digit(a[0]));
        assert(is_digit(b[0]));
        let p = pow10((a.len() - 1) as nat);
        let da = digit_value(a[0]);
        let db = digit_value(b[0]);
        let ra = digits_value(ta);
        let rb = digits_value(tb);
        if a[0] != b[0] {
            if da == db {
                lemma_code_point_injective(a[0], b[0]);
            }
            if da < db {
                assert(da * p + ra < db * p + rb) by (nonlinear_arith)
                    requires
                        da < db,
                        0 <= ra < p,
                        0 <= rb,
                ;
            } else {
                assert(da > db);
                assert(da * p + ra > db * p + rb) by (nonlinear_arith)
                    requires
                        da > db,
                        0 <= rb < p,
                        0 <= ra,
                ;
            }
        } else {
            lemma_chars_cmp_value(ta, tb);
        }
    }
}

/// Digit runs compare by the numbers they write: `numeric_cmp` orders two
/// strings of decimal digits exactly as their values are ordered.
pub proof fn lemma_numeric_cmp_is_value_order(x: Seq<char>, y: Seq<char>)
    requires
        all_digits(x),
        all_digits(y),
    ensures
        (numeric_cmp(x, y) == Ordering::Less) == (digits_value(x) < digits_value(y)),
        (numeric_cmp(x, y) == Ordering::Equal) == (digits_value(x) == digits_value(y)),
        (numeric_cmp(x, y) == Ordering::Greater) == (digits_value(x) > digits_value(y)),
{
    lemma_strip_zeros_value(x);
    lemma_strip_zeros_value(y);
    let a = strip_zeros(x);
    let b = strip_zeros(y);
    lemma_value_bound(a);
    lemma_value_bound(b);
    if a.len() < b.len() {
        lemma_value_lower(b);
        lemma_pow10_monotone(a.len(), (b.len() - 1) as nat);
    } else if a.len() > b.len() {
        lemma_value_lower(a);
        lemma_pow10_monotone(b.len(), (a.len() - 1) as nat);
    } else {
        lemma_chars_cmp_value(a, b);
    }
}

} // verus!
