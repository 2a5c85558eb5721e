//! How the MaxSAT sub-problem counts: an assignment of the sub-problem,
//! lifted into the parents' agreed values, satisfies the clauses that an
//! agreed variable already satisfies plus those the sub-problem satisfies.

use vstd::prelude::*;
use crate::sat::{Sat, var_of, valid_lit, lit_true, clause_sat};
use crate::sat_crossover::{free_rank, sub_lit, sub_clause, fixed_sat, sub_clauses};

verus! {

/// The number of clauses of `cls` that `x` satisfies.
pub open spec fn count_sat(cls: Seq<Seq<i64>>, x: Seq<bool>) -> int
    decreases cls.len(),
{
    if cls.len() == 0 {
        0
    } else {
        count_sat(cls.drop_last(), x) + if clause_sat(cls.last(), x) { 1int } else { 0int }
    }
}

/// The number of clauses of `cls` that some agreed variable satisfies under
/// `x1`.
pub open spec fn count_fixed(cls: Seq<Seq<i64>>, x1: Seq<bool>, x2: Seq<bool>) -> int
    decreases cls.len(),
{
    if cls.len() == 0 {
        0
    } else {
        count_fixed(cls.drop_last(), x1, x2) + if fixed_sat(cls.last(), x1, x2) { 1int } else { 0int }
    }
}

/// The first `n` values of `x1`, with each differing variable `v` taking
/// the sub-problem's value `y[free_rank(v)]`.
pub open spec fn lifted(x1: Seq<bool>, x2: Seq<bool>, y: Seq<bool>, n: int) -> Seq<bool> {
    Seq::new(n as nat, |v: int| if x1[v] != x2[v] { y[free_rank(x1, x2, v) as int] } else { x1[v] })
}

proof fn lemma_count_sat_sum(s: Sat, x: Seq<bool>, m: int)
    requires
        0 <= m <= s.cls().len(),
    ensures
        count_sat(s.cls().take(m), x) == crate::sums::sum_to(|c: int| s.sat_term(x, c), m),
    decreases m,
{
    if m > 0 {
        lemma_count_sat_sum(s, x, m - 1);
        assert(s.cls().take(m).drop_last() =~= s.cls().take(m - 1));
    }
}

/// The number of satisfied clauses counted clause by clause.
proof fn lemma_num_satisfied_count(s: Sat, x: Seq<bool>)
    ensures
        s.num_satisfied(x) == count_sat(s.cls(), x),
{
    lemma_count_sat_sum(s, x, s.cls().len() as int);
    assert(s.cls().take(s.cls().len() as int) =~= s.cls());
}

proof fn lemma_clause_sat_push(c: Seq<i64>, x: Seq<bool>)
    requires
        c.len() > 0,
    ensures
        clause_sat(c, x) == (clause_sat(c.drop_last(), x) || lit_true(c.last(), x)),
{
    let d = c.drop_last();
    if clause_sat(c, x) {
        let k = choose|k: int| 0 <= k < c.len() && #[trigger] lit_true(c[k], x);
        if k < d.len() {
            assert(d[k] == c[k]);
        }
    }
    if clause_sat(d, x) {
        let k = choose|k: int| 0 <= k < d.len() && #[trigger] lit_true(d[k], x);
        assert(c[k] == d[k]);
    }
    if lit_true(c.last(), x) {
        assert(lit_true(c[c.len() - 1], x));
    }
}

proof fn lemma_fixed_sat_push(c: Seq<i64>, x1: Seq<bool>, x2: Seq<bool>)
    requires
        c.len() > 0,
    ensures
        fixed_sat(c, x1, x2) == (fixed_sat(c.drop_last(), x1, x2)
            || (x1[var_of(c.last())] == x2[var_of(c.last())] && lit_true(c.last(), x1))),
{
    let d = c.drop_last();
    if fixed_sat(c, x1, x2) {
        let k = choose|k: int| 0 <= k < c.len() && x1[var_of(c[k])] == x2[var_of(c[k])] && #[trigger] lit_true(c[k], x1);
        if k < d.len() {
            assert(d[k] == c[k]);
        }
    }
    if fixed_sat(d, x1, x2) {
        let k = choose|k: int| 0 <= k < d.len() && x1[var_of(d[k])] == x2[var_of(d[k])] && #[trigger] lit_true(d[k], x1);
        assert(c[k] == d[k]);
    }
    if x1[var_of(c.last())] == x2[var_of(c.last())] && lit_true(c.last(), x1) {
        assert(lit_true(c[c.len() - 1], x1));
    }
}

/// A clause holds under the lifted assignment exactly when an agreed
/// variable satisfies it under `x1` or its sub-clause holds under `y`.
proof fn lemma_clause_lifted(c: Seq<i64>, x1: Seq<bool>, x2: Seq<bool>, y: Seq<bool>, n: int)
    requires
        0 <= n <= i64::MAX,
        x1.len() >= n,
        x2.len() >= n,
        y.len() == free_rank(x1, x2, n),
        forall|k: int| 0 <= k < c.len() ==> valid_lit(#[trigger] c[k], n),
    ensures
        clause_sat(c, lifted(x1, x2, y, n)) == (fixed_sat(c, x1, x2) || clause_sat(sub_clause(c, x1, x2), y)),
    decreases c.len(),
{
    let z = lifted(x1, x2, y, n);
    if c.len() == 0 {
        assert(!clause_sat(c, z));
        assert(!fixed_sat(c, x1, x2));
        assert(!clause_sat(sub_clause(c, x1, x2), y));
    } else {
        let d = c.drop_last();
        let l = c.last();
        assert(valid_lit(c[c.len() - 1], n));
        lemma_clause_lifted(d, x1, x2, y, n);
        lemma_clause_sat_push(c, z);
        lemma_fixed_sat_push(c, x1, x2);
        let v = var_of(l);
        assert(0 <= v < n);
        if x1[v] != x2[v] {
            lemma_rank_below(x1, x2, v, n);
            let sl = sub_lit(l, x1, x2);
            assert(var_of(sl) == free_rank(x1, x2, v));
            assert(lit_true(l, z) == lit_true(sl, y));
            let sc = sub_clause(c, x1, x2);
            assert(sc == sub_clause(d, x1, x2).push(sl));
            lemma_clause_sat_push(sc, y);
            assert(sc.drop_last() =~= sub_clause(d, x1, x2));
        } else {
            assert(lit_true(l, z) == lit_true(l, x1));
        }
    }
}

/// A differing variable below `n` has a rank below that of `n`.
proof fn lemma_rank_below(x1: Seq<bool>, x2: Seq<bool>, v: int, n: int)
    requires
        0 <= v < n,
        x1[v] != x2[v],
    ensures
        free_rank(x1, x2, v) < free_rank(x1, x2, n),
        free_rank(x1, x2, v) <= v,
    decreases n - v,
{
    if n == v + 1 {
        lemma_rank_le(x1, x2, v);
    } else {
        lemma_rank_below(x1, x2, v, n - 1);
    }
}

proof fn lemma_rank_le(x1: Seq<bool>, x2: Seq<bool>, v: int)
    requires
        0 <= v,
    ensures
        free_rank(x1, x2, v) <= v,
    decreases v,
{
    if v > 0 {
        lemma_rank_le(x1, x2, v - 1);
    }
}

proof fn lemma_count_lifted(cls: Seq<Seq<i64>>, x1: Seq<bool>, x2: Seq<bool>, y: Seq<bool>, n: int)
    requires
        0 <= n <= i64::MAX,
        x1.len() >= n,
        x2.len() >= n,
        y.len() == free_rank(x1, x2, n),
        forall|c: int, k: int| 0 <= c < cls.len() && 0 <= k < cls[c].len() ==> valid_lit(#[trigger] cls[c][k], n),
    ensures
        count_sat(cls, lifted(x1, x2, y, n)) == count_fixed(cls, x1, x2) + count_sat(sub_clauses(cls, x1, x2), y),
    decreases cls.len(),
{
    if cls.len() > 0 {
        let d = cls.drop_last();
        let c = cls.last();
        assert forall|cc: int, k: int| 0 <= cc < d.len() && 0 <= k < d[cc].len() implies valid_lit(#[trigger] d[cc][k], n) by {
            assert(d[cc] == cls[cc]);
        }
        assert forall|k: int| 0 <= k < c.len() implies valid_lit(#[trigger] c[k], n) by {
            assert(cls[cls.len() - 1][k] == c[k]);
        }
        lemma_count_lifted(d, x1, x2, y, n);
        lemma_clause_lifted(c, x1, x2, y, n);
        let sc = sub_clause(c, x1, x2);
        if !fixed_sat(c, x1, x2) && sc.len() > 0 {
            let sub = sub_clauses(cls, x1, x2);
            assert(sub.drop_last() =~= sub_clauses(d, x1, x2));
        } else if !fixed_sat(c, x1, x2) {
            assert(!clause_sat(sc, y));
        }
    }
}

impl Sat {
    /// The sub-problem law: for every assignment `y` of the sub-problem of
    /// two parents, the full problem under `y` lifted into the agreed values
    /// of `x1` satisfies the clauses that an agreed variable satisfies under
    /// `x1`, plus exactly as many as the sub-problem satisfies under `y`.
    pub proof fn lemma_sub_problem_satisfied(self, sub: Sat, x1: Seq<bool>, x2: Seq<bool>, y: Seq<bool>)
        requires
            self.wf(),
            x1.len() >= self.nv(),
            x2.len() >= self.nv(),
            self.nv() <= i64::MAX,
            sub.nv() == free_rank(x1, x2, self.nv() as int),
            sub.cls() == sub_clauses(self.cls(), x1, x2),
            y.len() == sub.nv(),
        ensures
            self.num_satisfied(lifted(x1, x2, y, self.nv() as int))
                == count_fixed(self.cls(), x1, x2) + sub.num_satisfied(y),
    {
        self.lemma_wf();
        lemma_num_satisfied_count(self, lifted(x1, x2, y, self.nv() as int));
        lemma_num_satisfied_count(sub, y);
        lemma_count_lifted(self.cls(), x1, x2, y, self.nv() as int);
    }
}

} // verus!
