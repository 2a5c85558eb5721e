//! Recombination of MaxSAT solutions: uniform crossover, and the sub-problem
//! on the variables where two parents disagree.

use vstd::prelude::*;
use rand::rngs::SmallRng;
use crate::rng::coin;
use crate::sat::{Sat, SatSolution, var_of, valid_lit, lit_true, flip, var_index};
use crate::sat_moves::SatFlipNeighbor;

verus! {

/// The number of variables below `v` on which the parents differ: the index
/// of a differing variable `v` in the sub-problem.
pub open spec fn free_rank(x1: Seq<bool>, x2: Seq<bool>, v: int) -> nat
    decreases v,
{
    if v <= 0 {
        0
    } else {
        free_rank(x1, x2, v - 1) + if x1[v - 1] != x2[v - 1] { 1nat } else { 0nat }
    }
}

/// The literal of the sub-problem for a literal on a differing variable.
pub open spec fn sub_lit(lit: i64, x1: Seq<bool>, x2: Seq<bool>) -> i64 {
    let r = free_rank(x1, x2, var_of(lit)) + 1;
    if lit > 0 {
        r as i64
    } else {
        (-r) as i64
    }
}

/// The literals of a clause on differing variables, in order, renamed to
/// the sub-problem's variables.
pub open spec fn sub_clause(cl: Seq<i64>, x1: Seq<bool>, x2: Seq<bool>) -> Seq<i64>
    decreases cl.len(),
{
    if cl.len() == 0 {
        Seq::empty()
    } else {
        let rest = sub_clause(cl.drop_last(), x1, x2);
        let l = cl.last();
        if x1[var_of(l)] != x2[var_of(l)] {
            rest.push(sub_lit(l, x1, x2))
        } else {
            rest
        }
    }
}

/// Some literal on a variable where the parents agree holds under `x1`.
pub open spec fn fixed_sat(cl: Seq<i64>, x1: Seq<bool>, x2: Seq<bool>) -> bool {
    exists|k: int| 0 <= k < cl.len() && x1[var_of(cl[k])] == x2[var_of(cl[k])] && #[trigger] lit_true(cl[k], x1)
}

/// The clauses of the sub-problem: each clause that no agreed variable
/// satisfies and that names some differing variable, restricted to those.
pub open spec fn sub_clauses(cls: Seq<Seq<i64>>, x1: Seq<bool>, x2: Seq<bool>) -> Seq<Seq<i64>>
    decreases cls.len(),
{
    if cls.len() == 0 {
        Seq::empty()
    } else {
        let rest = sub_clauses(cls.drop_last(), x1, x2);
        let c = cls.last();
        if !fixed_sat(c, x1, x2) && sub_clause(c, x1, x2).len() > 0 {
            rest.push(sub_clause(c, x1, x2))
        } else {
            rest
        }
    }
}

/// The rank grows by one at each differing variable.
proof fn lemma_free_rank_mono(x1: Seq<bool>, x2: Seq<bool>, v: int, w: int)
    requires
        0 <= v <= w,
    ensures
        free_rank(x1, x2, v) <= free_rank(x1, x2, w),
        free_rank(x1, x2, w) <= free_rank(x1, x2, v) + (w - v),
        v < w && x1[v] != x2[v] ==> free_rank(x1, x2, v) < free_rank(x1, x2, w),
    decreases w - v,
{
    if v < w {
        lemma_free_rank_mono(x1, x2, v, w - 1);
        if v < w - 1 {
            lemma_free_rank_mono(x1, x2, v, w - 1);
        }
    }
}

/// The differing variables below `n`, increasing; entry `k` has rank `k`.
fn free_list(x1: &[bool], x2: &[bool], n: usize) -> (r: Vec<usize>)
    requires
        x1@.len() >= n,
        x2@.len() >= n,
    ensures
        r@.len() == free_rank(x1@, x2@, n as int),
        forall|k: int| 0 <= k < r@.len() ==> #[trigger] r@[k] < n && x1@[r@[k] as int] != x2@[r@[k] as int]
            && free_rank(x1@, x2@, r@[k] as int) == k,
{
    let mut r: Vec<usize> = Vec::new();
    let mut v: usize = 0;
    while v < n
        invariant
            0 <= v <= n,
            x1@.len() >= n,
            x2@.len() >= n,
            r@.len() == free_rank(x1@, x2@, v as int),
            forall|k: int| 0 <= k < r@.len() ==> #[trigger] r@[k] < v && x1@[r@[k] as int] != x2@[r@[k] as int]
                && free_rank(x1@, x2@, r@[k] as int) == k,
        decreases n - v,
    {
        if x1[v] != x2[v] {
            r.push(v);
        }
        v += 1;
    }
    r
}

/// Uniform crossover for MaxSAT: each variable takes its truth value from
/// the first or the second parent with equal probability.
#[derive(Debug, Clone, Copy)]
pub struct SatUniformCrossover;

impl SatUniformCrossover {
    /// The child that takes `sol2`'s value of variable `i` when `picks[i]`
    /// holds and `sol1`'s otherwise, built from `sol1` by flip moves.
    pub fn crossover_with(prob: &Sat, sol1: &SatSolution, sol2: &SatSolution, picks: &[bool]) -> (r: SatSolution)
        requires
            sol1.consistent(*prob),
            sol2.x@.len() >= prob.nv(),
            picks@.len() == prob.nv(),
            prob.cls().len() <= i64::MAX,
        ensures
            r.consistent(*prob),
            forall|v: int| 0 <= v < prob.nv() ==> #[trigger] r.x@[v] == if picks@[v] { sol2.x@[v] } else { sol1.x@[v] },
    {
        let n = prob.n_vars();
        let mut sol = sol1.duplicate();
        let mut i: usize = 0;
        while i < n
            invariant
                0 <= i <= n,
                n == prob.nv(),
                sol.consistent(*prob),
                sol2.x@.len() >= n,
                picks@.len() == n,
                prob.cls().len() <= i64::MAX,
                forall|v: int| 0 <= v < n ==> #[trigger] sol.x@[v] == if v < i && picks@[v] { sol2.x@[v] } else { sol1.x@[v] },
            decreases n - i,
        {
            if sol.x[i] != sol2.x[i] && picks[i] {
                let mv = SatFlipNeighbor { i, gain: sol.gain[i] };
                mv.apply_to_solution(prob, &mut sol);
            }
            i += 1;
        }
        sol
    }

    /// Uniform crossover: for each variable on which the parents differ, a
    /// fair coin decides whether the child takes `sol2`'s value.
    pub fn crossover(&mut self, prob: &Sat, sol1: &SatSolution, sol2: &SatSolution, rng: &mut SmallRng) -> (r: SatSolution)
        requires
            sol1.consistent(*prob),
            sol2.x@.len() >= prob.nv(),
            prob.cls().len() <= i64::MAX,
        ensures
            r.consistent(*prob),
            forall|v: int| 0 <= v < prob.nv() ==> #[trigger] r.x@[v] == sol1.x@[v] || r.x@[v] == sol2.x@[v],
    {
        let n = prob.n_vars();
        let mut picks: Vec<bool> = Vec::new();
        let mut i: usize = 0;
        while i < n
            invariant
                0 <= i <= n,
                n == prob.nv(),
                sol1.x@.len() == n,
                sol2.x@.len() >= n,
                picks@.len() == i,
            decreases n - i,
        {
            if sol1.x[i] != sol2.x[i] {
                let b = coin(rng);
                picks.push(b);
            } else {
                picks.push(false);
            }
            i += 1;
        }
        Self::crossover_with(prob, sol1, sol2, picks.as_slice())
    }
}

impl Sat {
    /// The sub-problem on the variables where `sol1` and `sol2` differ,
    /// renamed in increasing order: every clause that some agreed variable
    /// satisfies under `sol1` is dropped, and the others keep only their
    /// literals on differing variables (a clause left empty is dropped too).
    pub fn extract_sub_problem(&self, sol1: &SatSolution, sol2: &SatSolution) -> (r: Sat)
        requires
            self.wf(),
            sol1.x@.len() >= self.nv(),
            sol2.x@.len() >= self.nv(),
            self.nv() <= i64::MAX,
        ensures
            r.wf(),
            r.nv() == free_rank(sol1.x@, sol2.x@, self.nv() as int),
            r.cls() == sub_clauses(self.cls(), sol1.x@, sol2.x@),
    {
        proof {
            self.lemma_wf();
        }
        let ghost x1 = sol1.x@;
        let ghost x2 = sol2.x@;
        let n = self.n_vars();
        let free = free_list(sol1.x.as_slice(), sol2.x.as_slice(), n);
        let n_free = free.len();
        let mut sub = Sat::new(n_free);
        let clauses = self.all_clauses();
        let mut c: usize = 0;
        proof {
            assert(self.cls().take(0) =~= Seq::<Seq<i64>>::empty());
        }
        while c < clauses.len()
            invariant
                0 <= c <= clauses@.len(),
                clauses@.len() == self.cls().len(),
                forall|cc: int| 0 <= cc < clauses@.len() ==> #[trigger] clauses@[cc]@ == self.cls()[cc],
                forall|cc: int, k: int| 0 <= cc < self.cls().len() && 0 <= k < self.cls()[cc].len()
                    ==> valid_lit(#[trigger] self.cls()[cc][k], self.nv() as int),
                self.cls().len() <= usize::MAX,
                n == self.nv(),
                n <= i64::MAX,
                x1 == sol1.x@,
                x2 == sol2.x@,
                x1.len() >= n,
                x2.len() >= n,
                n_free == free_rank(x1, x2, n as int),
                sub.wf(),
                sub.nv() == n_free,
                sub.cls() == sub_clauses(self.cls().take(c as int), x1, x2),
                sub.cls().len() <= c,
            decreases clauses@.len() - c,
        {
            let clause = clauses[c].as_slice();
            let mut fixed = false;
            let mut lits: Vec<i64> = Vec::new();
            let mut k: usize = 0;
            while k < clause.len()
                invariant
                    0 <= k <= clause@.len(),
                    c < self.cls().len(),
                    clause@ == self.cls()[c as int],
                    forall|kk: int| 0 <= kk < clause@.len() ==> valid_lit(#[trigger] clause@[kk], n as int),
                    n == self.nv(),
                    n <= i64::MAX,
                    x1 == sol1.x@,
                    x2 == sol2.x@,
                    x1.len() >= n,
                    x2.len() >= n,
                    n_free == free_rank(x1, x2, n as int),
                    fixed == fixed_sat(clause@.take(k as int), x1, x2),
                    lits@ == sub_clause(clause@.take(k as int), x1, x2),
                    forall|kk: int| 0 <= kk < lits@.len() ==> valid_lit(#[trigger] lits@[kk], n_free as int),
                decreases clause@.len() - k,
            {
                let lit = clause[k];
                let v = var_index(lit, n);
                let ghost t1 = clause@.take(k as int + 1);
                proof {
                    assert(t1.drop_last() =~= clause@.take(k as int));
                    assert(t1.last() == lit);
                    lemma_free_rank_mono(x1, x2, v as int, n as int);
                    lemma_free_rank_mono(x1, x2, 0, v as int);
                }
                if sol1.x[v] == sol2.x[v] {
                    if sol1.x[v] == (lit > 0) {
                        fixed = true;
                    }
                } else {
                    let rank = count_free_below(sol1.x.as_slice(), sol2.x.as_slice(), v);
                    let l: i64 = if lit > 0 { (rank + 1) as i64 } else { -((rank + 1) as i64) };
                    proof {
                        assert(l == sub_lit(lit, x1, x2));
                        assert(valid_lit(l, n_free as int));
                    }
                    lits.push(l);
                }
                proof {
                    assert(fixed == fixed_sat(t1, x1, x2)) by {
                        if fixed_sat(t1, x1, x2) {
                            let kk = choose|kk: int| 0 <= kk < t1.len() && x1[var_of(t1[kk])] == x2[var_of(t1[kk])] && #[trigger] lit_true(t1[kk], x1);
                            if kk < k {
                                assert(clause@.take(k as int)[kk] == t1[kk]);
                                assert(fixed_sat(clause@.take(k as int), x1, x2));
                            }
                        }
                        if fixed_sat(clause@.take(k as int), x1, x2) {
                            let kk = choose|kk: int| 0 <= kk < k && x1[var_of(clause@.take(k as int)[kk])] == x2[var_of(clause@.take(k as int)[kk])]
                                && #[trigger] lit_true(clause@.take(k as int)[kk], x1);
                            assert(clause@.take(k as int)[kk] == t1[kk]);
                        }
                        if x1[v as int] == x2[v as int] && x1[v as int] == (lit > 0) {
                            assert(lit_true(t1[k as int], x1));
                        }
                    }
                    assert(lits@ == sub_clause(t1, x1, x2));
                }
                k += 1;
            }
            proof {
                assert(clause@.take(clause@.len() as int) =~= clause@);
                let t1 = self.cls().take(c as int + 1);
                assert(t1.drop_last() =~= self.cls().take(c as int));
                assert(t1.last() == clause@);
            }
            if !fixed && lits.len() > 0 {
                sub.add_clause(lits.as_slice());
            }
            c += 1;
        }
        proof {
            assert(self.cls().take(self.cls().len() as int) =~= self.cls());
        }
        sub
    }

    /// Lifts a solution of the sub-problem back: every variable where the
    /// parents differ takes the value of its sub-problem variable, the others
    /// keep `sol1`'s, and the gains are kept consistent by flip moves.
    pub fn lift_solution(&self, sol1: &SatSolution, sol2: &SatSolution, sub_solution: &SatSolution) -> (r: SatSolution)
        requires
            sol1.consistent(*self),
            sol2.x@.len() >= self.nv(),
            sub_solution.x@.len() >= free_rank(sol1.x@, sol2.x@, self.nv() as int),
            self.cls().len() <= i64::MAX,
        ensures
            r.consistent(*self),
            forall|v: int| 0 <= v < self.nv() ==> #[trigger] r.x@[v] == if sol1.x@[v] != sol2.x@[v] {
                sub_solution.x@[free_rank(sol1.x@, sol2.x@, v) as int]
            } else {
                sol1.x@[v]
            },
    {
        let n = self.n_vars();
        let free = free_list(sol1.x.as_slice(), sol2.x.as_slice(), n);
        let mut sol = sol1.duplicate();
        let mut t: usize = 0;
        while t < free.len()
            invariant
                0 <= t <= free@.len(),
                n == self.nv(),
                free@.len() == free_rank(sol1.x@, sol2.x@, n as int),
                forall|k: int| 0 <= k < free@.len() ==> #[trigger] free@[k] < n && sol1.x@[free@[k] as int] != sol2.x@[free@[k] as int]
                    && free_rank(sol1.x@, sol2.x@, free@[k] as int) == k,
                sub_solution.x@.len() >= free@.len(),
                sol.consistent(*self),
                self.cls().len() <= i64::MAX,
                forall|v: int| 0 <= v < n ==> #[trigger] sol.x@[v] == if sol1.x@[v] != sol2.x@[v] && free_rank(sol1.x@, sol2.x@, v) < t {
                    sub_solution.x@[free_rank(sol1.x@, sol2.x@, v) as int]
                } else {
                    sol1.x@[v]
                },
            decreases free@.len() - t,
        {
            let orig = free[t];
            proof {
                assert forall|v: int| 0 <= v < n && v != orig as int && sol1.x@[v] != sol2.x@[v]
                    implies #[trigger] free_rank(sol1.x@, sol2.x@, v) != t by {
                    if v < orig as int {
                        lemma_free_rank_mono(sol1.x@, sol2.x@, v, orig as int);
                    } else {
                        lemma_free_rank_mono(sol1.x@, sol2.x@, orig as int, v);
                    }
                }
            }
            if sol.x[orig] != sub_solution.x[t] {
                let mv = SatFlipNeighbor { i: orig, gain: sol.gain[orig] };
                mv.apply_to_solution(self, &mut sol);
            }
            t += 1;
        }
        proof {
            assert forall|v: int| 0 <= v < n && sol1.x@[v] != sol2.x@[v] implies #[trigger] free_rank(sol1.x@, sol2.x@, v) < t by {
                lemma_free_rank_mono(sol1.x@, sol2.x@, v, n as int);
            }
        }
        sol
    }
}

/// The number of variables below `v` on which the parents differ.
fn count_free_below(x1: &[bool], x2: &[bool], v: usize) -> (r: usize)
    requires
        x1@.len() >= v,
        x2@.len() >= v,
    ensures
        r == free_rank(x1@, x2@, v as int),
{
    let mut r: usize = 0;
    let mut u: usize = 0;
    while u < v
        invariant
            0 <= u <= v,
            x1@.len() >= v,
            x2@.len() >= v,
            r == free_rank(x1@, x2@, u as int),
            r <= u,
        decreases v - u,
    {
        if x1[u] != x2[u] {
            r += 1;
        }
        u += 1;
    }
    r
}

} // verus!
