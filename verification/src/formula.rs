//! The vocabulary that formula-based problems share: comparison operators,
//! optimization directions, the coupler distributions of planted instances,
//! and the product of two monomials' variable lists.

use vstd::prelude::*;

verus! {

/// Comparison operator of a constraint `lhs rel rhs`.
#[derive(Debug, Clone, Copy, PartialEq, Eq, Structural)]
pub enum ConstraintRel {
    Lt,
    Gt,
    Le,
    Ge,
    Eq,
}

/// Optimization direction of a formula problem.
#[derive(Debug, Clone, Copy, PartialEq, Eq, Structural)]
pub enum OptDirection {
    Maximize,
    Minimize,
}

/// Coupler distribution of a planted Wishart instance: real couplers from
/// Gaussian variates, or integer couplers from `{-1, 1}` variates.
#[derive(Debug, Clone, Copy, PartialEq, Eq, Structural)]
pub enum WishartCouplers {
    Gaussian,
    Discrete,
}

/// The total power of variable `v` over the `(variable, power)` pairs of `s`.
pub open spec fn power(s: Seq<(usize, u32)>, v: usize) -> int
    decreases s.len(),
{
    if s.len() == 0 {
        0
    } else {
        power(s.drop_last(), v) + if s.last().0 == v { s.last().1 as int } else { 0int }
    }
}

/// Variable `v` occurs in `s`.
pub open spec fn has_var(s: Seq<(usize, u32)>, v: usize) -> bool {
    exists|k: int| 0 <= k < s.len() && #[trigger] s[k].0 == v
}

/// The variables of `s` strictly increase.
pub open spec fn vars_increasing(s: Seq<(usize, u32)>) -> bool {
    forall|i: int, j: int| 0 <= i < j < s.len() ==> #[trigger] s[i].0 < #[trigger] s[j].0
}

/// A variable that does not occur has power `0`, and a power never
/// decreases along a longer prefix.
proof fn lemma_power_prefix(s: Seq<(usize, u32)>, m: int, v: usize)
    requires
        0 <= m <= s.len(),
    ensures
        0 <= power(s.take(m), v) <= power(s, v),
        !has_var(s, v) ==> power(s, v) == 0,
    decreases s.len(),
{
    if s.len() > 0 {
        let d = s.drop_last();
        if m == s.len() {
            assert(s.take(m) =~= s);
            lemma_power_prefix(d, d.len() as int, v);
        } else {
            assert(s.take(m) =~= d.take(m));
            lemma_power_prefix(d, m, v);
        }
        if !has_var(s, v) {
            assert forall|k: int| 0 <= k < d.len() implies #[trigger] d[k].0 != v by {
                assert(s[k].0 == d[k].0);
            }
            assert(s[s.len() - 1].0 != v);
        }
    } else {
        assert(s.take(m) =~= s);
    }
}

/// The product of two monomials' variable lists: every variable of either
/// list once, in increasing order, with its powers added up.
pub fn multiply(a: &[(usize, u32)], b: &[(usize, u32)]) -> (r: Vec<(usize, u32)>)
    requires
        a@.len() + b@.len() <= usize::MAX,
        forall|v: usize| #[trigger] power(a@ + b@, v) <= u32::MAX,
    ensures
        vars_increasing(r@),
        forall|v: usize| #[trigger] has_var(r@, v) <==> has_var(a@ + b@, v),
        forall|k: int| 0 <= k < r@.len() ==> #[trigger] r@[k].1 as int == power(a@ + b@, r@[k].0),
{
    let ghost c = a@ + b@;
    let mut merged: Vec<(usize, u32)> = Vec::new();
    let total = a.len() + b.len();
    let mut t: usize = 0;
    proof {
        assert(c.take(0) =~= Seq::<(usize, u32)>::empty());
    }
    while t < total
        invariant
            0 <= t <= total,
            total == c.len(),
            c == a@ + b@,
            forall|v: usize| #[trigger] power(c, v) <= u32::MAX,
            vars_increasing(merged@),
            forall|v: usize| #[trigger] has_var(merged@, v) <==> has_var(c.take(t as int), v),
            forall|k: int| 0 <= k < merged@.len() ==> #[trigger] merged@[k].1 as int == power(c.take(t as int), merged@[k].0),
        decreases total - t,
    {
        let (v, q) = if t < a.len() { a[t] } else { b[t - a.len()] };
        let ghost pre = c.take(t as int);
        let ghost post = c.take(t as int + 1);
        proof {
            assert(c[t as int] == (v, q));
            assert(post.drop_last() =~= pre);
            assert forall|w: usize| #[trigger] has_var(post, w) <==> has_var(pre, w) || w == v by {
                if has_var(post, w) && w != v {
                    let k = choose|k: int| 0 <= k < post.len() && #[trigger] post[k].0 == w;
                    assert(pre[k].0 == w);
                }
                if has_var(pre, w) {
                    let k = choose|k: int| 0 <= k < pre.len() && #[trigger] pre[k].0 == w;
                    assert(post[k].0 == w);
                }
                if w == v {
                    assert(post[t as int].0 == w);
                }
            }
            lemma_power_prefix(c, t as int + 1, v);
            lemma_power_prefix(pre, pre.len() as int, v);
        }
        let mut p: usize = 0;
        while p < merged.len() && merged[p].0 < v
            invariant
                0 <= p <= merged@.len(),
                forall|k: int| 0 <= k < p ==> #[trigger] merged@[k].0 < v,
            decreases merged@.len() - p,
        {
            p += 1;
        }
        let ghost before = merged@;
        if p < merged.len() && merged[p].0 == v {
            let old_q = merged[p].1;
            merged.set(p, (v, old_q + q));
            proof {
                assert forall|w: usize| #[trigger] has_var(merged@, w) <==> has_var(before, w) by {
                    if has_var(merged@, w) {
                        let k = choose|k: int| 0 <= k < merged@.len() && #[trigger] merged@[k].0 == w;
                        assert(before[k].0 == w);
                    }
                    if has_var(before, w) {
                        let k = choose|k: int| 0 <= k < before.len() && #[trigger] before[k].0 == w;
                        assert(merged@[k].0 == w);
                    }
                }
                assert forall|k: int| 0 <= k < merged@.len() implies #[trigger] merged@[k].1 as int == power(post, merged@[k].0) by {
                    if k != p {
                        assert(before[k].0 != v);
                    }
                }
            }
        } else {
            proof {
                assert(!has_var(pre, v)) by {
                    if has_var(before, v) {
                        let k = choose|k: int| 0 <= k < before.len() && #[trigger] before[k].0 == v;
                        if k >= p {
                            assert(before[p as int].0 <= before[k].0);
                        }
                    }
                }
            }
            merged.insert(p, (v, q));
            proof {
                assert forall|w: usize| #[trigger] has_var(merged@, w) <==> has_var(before, w) || w == v by {
                    if has_var(merged@, w) {
                        let k = choose|k: int| 0 <= k < merged@.len() && #[trigger] merged@[k].0 == w;
                        if k < p {
                            assert(before[k].0 == w);
                        } else if k > p {
                            assert(before[k - 1].0 == w);
                        }
                    }
                    if has_var(before, w) {
                        let k = choose|k: int| 0 <= k < before.len() && #[trigger] before[k].0 == w;
                        if k < p {
                            assert(merged@[k].0 == w);
                        } else {
                            assert(merged@[k + 1].0 == w);
                        }
                    }
                    if w == v {
                        assert(merged@[p as int].0 == w);
                    }
                }
                assert forall|i: int, j: int| 0 <= i < j < merged@.len() implies #[trigger] merged@[i].0 < #[trigger] merged@[j].0 by {
                    if j < p {
                    } else if i < p && j == p {
                    } else if i < p {
                        assert(before[i].0 < before[j - 1].0);
                    } else if i == p {
                        assert(before[p as int].0 <= before[j - 1].0);
                    } else {
                        assert(before[i - 1].0 < before[j - 1].0);
                    }
                }
                assert forall|k: int| 0 <= k < merged@.len() implies #[trigger] merged@[k].1 as int == power(post, merged@[k].0) by {
                    if k < p {
                        assert(before[k].0 < v);
                    } else if k > p {
                        assert(merged@[k] == before[k - 1]);
                        assert(before[p as int].0 <= before[k - 1].0);
                    }
                }
            }
        }
        t += 1;
    }
    proof {
        assert(c.take(total as int) =~= c);
    }
    merged
}

} // verus!
