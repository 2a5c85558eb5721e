//! Finite sums over integer ranges and lists of indices, with the lemmas the
//! problem modules use to relate a loop over a sparse list to a sum over all
//! indices.

use vstd::prelude::*;

verus! {

/// `f(0) + f(1) + ... + f(n - 1)`, and `0` when `n <= 0`.
pub open spec fn sum_to(f: spec_fn(int) -> int, n: int) -> int
    decreases n,
{
    if n <= 0 {
        0
    } else {
        sum_to(f, n - 1) + f(n - 1)
    }
}

/// `f(s[0]) + f(s[1]) + ... + f(s[len - 1])`.
pub open spec fn sum_over(s: Seq<usize>, f: spec_fn(int) -> int) -> int
    decreases s.len(),
{
    if s.len() == 0 {
        0
    } else {
        sum_over(s.drop_last(), f) + f(s.last() as int)
    }
}

/// No value occurs twice in `s`.
pub open spec fn all_distinct(s: Seq<usize>) -> bool {
    forall|a: int, b: int| 0 <= a < s.len() && 0 <= b < s.len() && a != b ==> s[a] != s[b]
}

/// Two functions that agree on `0..n` have the same sum there.
pub proof fn lemma_sum_to_ext(f: spec_fn(int) -> int, g: spec_fn(int) -> int, n: int)
    requires
        forall|j: int| 0 <= j < n ==> #[trigger] f(j) == g(j),
    ensures
        sum_to(f, n) == sum_to(g, n),
    decreases n,
{
    if n > 0 {
        lemma_sum_to_ext(f, g, n - 1);
    }
}

/// Changing a function at one point `k` changes its sum by the same amount.
pub proof fn lemma_sum_to_point(f: spec_fn(int) -> int, g: spec_fn(int) -> int, k: int, n: int)
    requires
        forall|j: int| 0 <= j < n && j != k ==> #[trigger] f(j) == g(j),
    ensures
        sum_to(g, n) == sum_to(f, n) + (if 0 <= k < n { g(k) - f(k) } else { 0 }),
    decreases n,
{
    if n > 0 {
        lemma_sum_to_point(f, g, k, n - 1);
    }
}

/// Terms beyond `m` that vanish do not change the sum.
pub proof fn lemma_sum_to_zero_tail(f: spec_fn(int) -> int, m: int, n: int)
    requires
        0 <= m <= n,
        forall|j: int| m <= j < n ==> #[trigger] f(j) == 0,
    ensures
        sum_to(f, n) == sum_to(f, m),
    decreases n,
{
    if n > m {
        lemma_sum_to_zero_tail(f, m, n - 1);
    }
}

/// The sum of a function that is zero everywhere is zero.
pub proof fn lemma_sum_to_zero(f: spec_fn(int) -> int, n: int)
    requires
        forall|j: int| 0 <= j < n ==> #[trigger] f(j) == 0,
    ensures
        sum_to(f, n) == 0,
    decreases n,
{
    if n > 0 {
        lemma_sum_to_zero(f, n - 1);
    }
}

/// Sums are monotone.
pub proof fn lemma_sum_to_le(f: spec_fn(int) -> int, g: spec_fn(int) -> int, n: int)
    requires
        forall|j: int| 0 <= j < n ==> #[trigger] f(j) <= g(j),
    ensures
        sum_to(f, n) <= sum_to(g, n),
    decreases n,
{
    if n > 0 {
        lemma_sum_to_le(f, g, n - 1);
    }
}

/// A sum of non-negative terms is non-negative and grows with `n`.
pub proof fn lemma_sum_to_nonneg_mono(f: spec_fn(int) -> int, m: int, n: int)
    requires
        0 <= m <= n,
        forall|j: int| 0 <= j < n ==> #[trigger] f(j) >= 0,
    ensures
        0 <= sum_to(f, m) <= sum_to(f, n),
    decreases n,
{
    if n > m {
        lemma_sum_to_nonneg_mono(f, m, n - 1);
    } else if m > 0 {
        lemma_sum_to_nonneg_mono(f, m - 1, m - 1);
    }
}

/// `j` occurs in `s`.
pub open spec fn occurs(s: Seq<usize>, j: int) -> bool {
    exists|k: int| 0 <= k < s.len() && s[k] as int == j
}

/// A sum over a list of distinct indices below `n`, outside of which the
/// function vanishes, is the sum over all of `0..n`.
pub proof fn lemma_sum_over_distinct(s: Seq<usize>, f: spec_fn(int) -> int, n: int)
    requires
        all_distinct(s),
        forall|k: int| 0 <= k < s.len() ==> #[trigger] s[k] < n,
        forall|j: int| 0 <= j < n && !occurs(s, j) ==> #[trigger] f(j) == 0,
    ensures
        sum_over(s, f) == sum_to(f, n),
    decreases s.len(),
{
    if s.len() == 0 {
        assert forall|j: int| 0 <= j < n implies #[trigger] f(j) == 0 by {
            assert(!occurs(s, j));
        }
        lemma_sum_to_zero(f, n);
    } else {
        let last = s.last() as int;
        let t = s.drop_last();
        let g = |j: int| if j == last { 0 } else { f(j) };
        assert forall|j: int| 0 <= j < n && !occurs(t, j) implies #[trigger] g(j) == 0 by {
            if j != last {
                if occurs(s, j) {
                    let k = choose|k: int| 0 <= k < s.len() && s[k] as int == j;
                    assert(k < s.len() - 1);
                    assert(t[k] as int == j);
                }
            }
        }
        assert forall|k: int| 0 <= k < t.len() implies #[trigger] t[k] < n by {
            assert(t[k] == s[k]);
        }
        assert forall|a: int, b: int| 0 <= a < t.len() && 0 <= b < t.len() && a != b implies t[a] != t[b] by {
            assert(t[a] == s[a] && t[b] == s[b]);
        }
        assert forall|k: int| 0 <= k < t.len() implies #[trigger] f(t[k] as int) == g(t[k] as int) by {
            assert(t[k] == s[k]);
            assert(s[k] != s[s.len() - 1]);
        }
        lemma_sum_over_ext(t, f, g);
        lemma_sum_over_distinct(t, g, n);
        lemma_sum_to_point(g, f, last, n);
    }
}

/// Sums over a list agree for functions that agree on its elements.
pub proof fn lemma_sum_over_ext(s: Seq<usize>, f: spec_fn(int) -> int, g: spec_fn(int) -> int)
    requires
        forall|k: int| 0 <= k < s.len() ==> #[trigger] f(s[k] as int) == g(s[k] as int),
    ensures
        sum_over(s, f) == sum_over(s, g),
    decreases s.len(),
{
    if s.len() > 0 {
        let t = s.drop_last();
        assert forall|k: int| 0 <= k < t.len() implies f(t[k] as int) == g(t[k] as int) by {
            assert(t[k] == s[k]);
        }
        lemma_sum_over_ext(t, f, g);
    }
}

/// Negating every term negates the sum.
pub proof fn lemma_sum_to_neg(f: spec_fn(int) -> int, g: spec_fn(int) -> int, n: int)
    requires
        forall|j: int| 0 <= j < n ==> #[trigger] g(j) == -f(j),
    ensures
        sum_to(g, n) == -sum_to(f, n),
    decreases n,
{
    if n > 0 {
        lemma_sum_to_neg(f, g, n - 1);
    }
}

/// A sum splits over a pointwise sum of functions.
pub proof fn lemma_sum_to_split(f: spec_fn(int) -> int, g: spec_fn(int) -> int, h: spec_fn(int) -> int, n: int)
    requires
        forall|j: int| 0 <= j < n ==> #[trigger] f(j) == g(j) + h(j),
    ensures
        sum_to(f, n) == sum_to(g, n) + sum_to(h, n),
    decreases n,
{
    if n > 0 {
        lemma_sum_to_split(f, g, h, n - 1);
    }
}

/// The terms of a list sum that are non-negative make it grow with the
/// prefix taken.
pub proof fn lemma_sum_over_prefix_le(s: Seq<usize>, f: spec_fn(int) -> int, m: int)
    requires
        0 <= m <= s.len(),
        forall|k: int| 0 <= k < s.len() ==> #[trigger] f(s[k] as int) >= 0,
    ensures
        0 <= sum_over(s.take(m), f) <= sum_over(s, f),
    decreases s.len(),
{
    if m == s.len() {
        assert(s.take(m) =~= s);
        lemma_sum_over_nonneg(s, f);
    } else {
        let t = s.drop_last();
        assert(s.take(m) =~= t.take(m));
        assert forall|k: int| 0 <= k < t.len() implies #[trigger] f(t[k] as int) >= 0 by {
            assert(t[k] == s[k]);
        }
        lemma_sum_over_prefix_le(t, f, m);
        assert(f(s[s.len() - 1] as int) >= 0);
    }
}

proof fn lemma_sum_over_nonneg(s: Seq<usize>, f: spec_fn(int) -> int)
    requires
        forall|k: int| 0 <= k < s.len() ==> #[trigger] f(s[k] as int) >= 0,
    ensures
        0 <= sum_over(s, f),
    decreases s.len(),
{
    if s.len() > 0 {
        let t = s.drop_last();
        assert forall|k: int| 0 <= k < t.len() implies #[trigger] f(t[k] as int) >= 0 by {
            assert(t[k] == s[k]);
        }
        lemma_sum_over_nonneg(t, f);
        assert(f(s[s.len() - 1] as int) >= 0);
    }
}

/// Extending a list prefix by one element adds that element's term.
pub proof fn lemma_sum_over_take_next(s: Seq<usize>, f: spec_fn(int) -> int, m: int)
    requires
        0 <= m < s.len(),
    ensures
        sum_over(s.take(m + 1), f) == sum_over(s.take(m), f) + f(s[m] as int),
{
    assert(s.take(m + 1).drop_last() =~= s.take(m));
}

/// Appending `x` adds exactly `x` to what occurs.
pub proof fn lemma_occurs_push(s: Seq<usize>, x: usize, j: int)
    ensures
        occurs(s.push(x), j) == (occurs(s, j) || j == x as int),
{
    let t = s.push(x);
    if occurs(s, j) {
        let k = choose|k: int| 0 <= k < s.len() && s[k] as int == j;
        assert(t[k] == s[k]);
    }
    if j == x as int {
        assert(t[s.len() as int] == x);
    }
    if occurs(t, j) {
        let k = choose|k: int| 0 <= k < t.len() && t[k] as int == j;
        if k < s.len() {
            assert(s[k] == t[k]);
        }
    }
}

/// Appending a new value keeps the values distinct.
pub proof fn lemma_distinct_push(s: Seq<usize>, x: usize)
    requires
        all_distinct(s),
        !occurs(s, x as int),
    ensures
        all_distinct(s.push(x)),
{
    let t = s.push(x);
    assert forall|a: int, b: int| 0 <= a < t.len() && 0 <= b < t.len() && a != b implies t[a] != t[b] by {
        if a < s.len() && b < s.len() {
            assert(t[a] == s[a] && t[b] == s[b]);
        } else if a < s.len() {
            assert(t[a] == s[a]);
        } else if b < s.len() {
            assert(t[b] == s[b]);
        }
    }
}

/// The sum of `n` ones is `n`.
pub proof fn lemma_sum_ones(n: int)
    ensures
        sum_to(|v: int| 1int, n) == if n < 0 { 0 } else { n },
    decreases n,
{
    if n > 0 {
        lemma_sum_ones(n - 1);
    }
}

/// The number of positions below `n` where `a` and `b` differ.
pub open spec fn mismatches<T>(a: Seq<T>, b: Seq<T>, n: int) -> int
    decreases n,
{
    if n <= 0 {
        0
    } else {
        mismatches(a, b, n - 1) + (if a[n - 1] != b[n - 1] { 1int } else { 0int })
    }
}

/// The number of positions where `a` and `b` differ, over the shorter
/// length.
pub fn count_mismatches_usize(a: &[usize], b: &[usize]) -> (r: usize)
    ensures
        r == mismatches(a@, b@, if a@.len() < b@.len() { a@.len() as int } else { b@.len() as int }),
{
    let n = if a.len() < b.len() { a.len() } else { b.len() };
    let mut c: usize = 0;
    let mut i: usize = 0;
    while i < n
        invariant
            i <= n,
            n <= a@.len(),
            n <= b@.len(),
            n == (if a@.len() < b@.len() { a@.len() } else { b@.len() }),
            c == mismatches(a@, b@, i as int),
            c <= i,
        decreases n - i,
    {
        if a[i] != b[i] {
            c += 1;
        }
        i += 1;
    }
    c
}

/// The number of positions where `a` and `b` differ, over the shorter
/// length.
pub fn count_mismatches_bool(a: &[bool], b: &[bool]) -> (r: usize)
    ensures
        r == mismatches(a@, b@, if a@.len() < b@.len() { a@.len() as int } else { b@.len() as int }),
{
    let n = if a.len() < b.len() { a.len() } else { b.len() };
    let mut c: usize = 0;
    let mut i: usize = 0;
    while i < n
        invariant
            i <= n,
            n <= a@.len(),
            n <= b@.len(),
            n == (if a@.len() < b@.len() { a@.len() } else { b@.len() }),
            c == mismatches(a@, b@, i as int),
            c <= i,
        decreases n - i,
    {
        if a[i] != b[i] {
            c += 1;
        }
        i += 1;
    }
    c
}

} // verus!
