//! MaxSAT solutions with cached flip gains, the flip and swap moves that keep
//! them consistent, and the law that makes the incremental update sound.

use vstd::prelude::*;
use rand::rngs::SmallRng;
use crate::rng::half_chance;
use crate::sums::{sum_to};
use crate::sat::{Sat, SatSolution, clause_sat, clause_has, flip, valid_lit, lit_true, var_of};

verus! {

impl Sat {
    /// The number of satisfied clauses lies between `0` and the number of
    /// clauses.
    pub proof fn lemma_num_satisfied_bounds(self, x: Seq<bool>)
        ensures
            0 <= self.num_satisfied(x) <= self.cls().len(),
    {
        lemma_count_bounds(|c: int| self.sat_term(x, c), self.cls().len() as int);
    }

    /// The gain of flipping `f`, plus the gain of then flipping `j` (what a
    /// virtual flip of `f` evaluates), is the change in the number of
    /// satisfied clauses from `x` to `x` with both flipped.
    pub proof fn lemma_gain_of_two_flips(self, x: Seq<bool>, f: int, j: int)
        ensures
            self.flip_gain(x, f) == self.num_satisfied(x.update(f, !x[f])) - self.num_satisfied(x),
            self.flip_gain(x, f) + self.flip_gain(flip(x, f), j)
                == self.num_satisfied(flip(flip(x, f), j)) - self.num_satisfied(x),
    {
    }

    /// The flip law: when `i` and `j` share no clause, flipping `i` leaves the
    /// gain of `j` unchanged; and flipping `i` negates its own gain.
    pub proof fn lemma_flip_gain_after_flip(self, x: Seq<bool>, i: int, j: int)
        requires
            self.wf(),
            x.len() == self.nv(),
            0 <= i < self.nv(),
            0 <= j < self.nv(),
            j == i || !self.share_clause(i, j),
        ensures
            self.flip_gain(flip(x, i), j) == if j == i { -self.flip_gain(x, i) } else { self.flip_gain(x, j) },
    {
        self.lemma_wf();
        if j == i {
            assert(flip(flip(x, i), i) =~= x);
        } else {
            let y = flip(x, i);
            let m = self.cls().len() as int;
            assert(flip(y, j) =~= flip(flip(x, j), i));
            assert forall|c: int| 0 <= c < m implies #[trigger] self.sat_term(flip(y, j), c) - self.sat_term(y, c)
                == self.sat_term(flip(x, j), c) - self.sat_term(x, c) by {
                let cl = self.cls()[c];
                assert forall|k: int| 0 <= k < cl.len() implies valid_lit(#[trigger] cl[k], x.len() as int) by {
                    assert(valid_lit(self.cls()[c][k], self.nv() as int));
                }
                if clause_has(cl, i) {
                    assert(!clause_has(cl, j));
                    lemma_clause_flip_other(cl, x, j);
                    lemma_clause_flip_other(cl, y, j);
                } else {
                    lemma_clause_flip_other(cl, x, i);
                    lemma_clause_flip_other(cl, flip(x, j), i);
                }
            }
            lemma_sum_to_diff(|c: int| self.sat_term(flip(y, j), c), |c: int| self.sat_term(y, c),
                |c: int| self.sat_term(flip(x, j), c), |c: int| self.sat_term(x, c), m);
        }
    }
}

/// Outside the flipped variable, a clause keeps its truth value.
proof fn lemma_clause_flip_other(clause: Seq<i64>, y: Seq<bool>, j: int)
    requires
        !clause_has(clause, j),
        0 <= j < y.len(),
        forall|k: int| 0 <= k < clause.len() ==> valid_lit(#[trigger] clause[k], y.len() as int),
    ensures
        clause_sat(clause, flip(y, j)) == clause_sat(clause, y),
{
    assert forall|k: int| 0 <= k < clause.len() implies #[trigger] lit_true(clause[k], flip(y, j)) == lit_true(clause[k], y) by {
        assert(var_of(clause[k]) != j);
    }
    if clause_sat(clause, y) {
        let k = choose|k: int| 0 <= k < clause.len() && #[trigger] lit_true(clause[k], y);
        assert(lit_true(clause[k], flip(y, j)));
    }
    if clause_sat(clause, flip(y, j)) {
        let k = choose|k: int| 0 <= k < clause.len() && #[trigger] lit_true(clause[k], flip(y, j));
        assert(lit_true(clause[k], y));
    }
}

/// A sum of terms that are each `0` or `1` lies between `0` and `n`.
proof fn lemma_count_bounds(f: spec_fn(int) -> int, n: int)
    requires
        forall|c: int| 0 <= c < n ==> 0 <= #[trigger] f(c) <= 1,
    ensures
        0 <= sum_to(f, n) <= if n < 0 { 0 } else { n },
    decreases n,
{
    if n > 0 {
        lemma_count_bounds(f, n - 1);
    }
}

/// Two differences of sums agree when their terms agree pointwise.
proof fn lemma_sum_to_diff(f1: spec_fn(int) -> int, g1: spec_fn(int) -> int, f2: spec_fn(int) -> int, g2: spec_fn(int) -> int, n: int)
    requires
        forall|c: int| 0 <= c < n ==> #[trigger] f1(c) - g1(c) == f2(c) - g2(c),
    ensures
        sum_to(f1, n) - sum_to(g1, n) == sum_to(f2, n) - sum_to(g2, n),
    decreases n,
{
    if n > 0 {
        lemma_sum_to_diff(f1, g1, f2, g2, n - 1);
        assert(f1(n - 1) - g1(n - 1) == f2(n - 1) - g2(n - 1));
    }
}

impl SatSolution {
    /// The number of positions where the two solutions' `x` differ.
    pub fn distance(&self, other: &SatSolution) -> (r: usize)
        ensures
            r == crate::sums::mismatches(self.x@, other.x@,
                if self.x@.len() < other.x@.len() { self.x@.len() as int } else { other.x@.len() as int }),
    {
        crate::sums::count_mismatches_bool(self.x.as_slice(), other.x.as_slice())
    }

    /// The cached fields agree with the assignment: `n_satisfied` counts the
    /// satisfied clauses and `gain[i]` is the flip gain of every variable.
    pub open spec fn consistent(self, sat: Sat) -> bool {
        &&& sat.wf()
        &&& self.x@.len() == sat.nv()
        &&& self.gain@.len() == sat.nv()
        &&& self.n_satisfied as int == sat.num_satisfied(self.x@)
        &&& forall|i: int| 0 <= i < sat.nv() ==> #[trigger] self.gain@[i] as int == sat.flip_gain(self.x@, i)
    }

    /// Creates a solution from an assignment, computing every gain and the
    /// number of satisfied clauses.
    pub fn new_from_assignment(sat: &Sat, x: Vec<bool>) -> (r: SatSolution)
        requires
            sat.wf(),
            x@.len() == sat.nv(),
            sat.cls().len() <= i64::MAX,
        ensures
            r.consistent(*sat),
            r.x@ == x@,
    {
        let n = sat.n_vars();
        let mut gain: Vec<i64> = Vec::new();
        let mut i: usize = 0;
        while i < n
            invariant
                0 <= i <= n,
                n == sat.nv(),
                sat.wf(),
                x@.len() == n,
                sat.cls().len() <= i64::MAX,
                gain@.len() == i,
                forall|v: int| 0 <= v < i ==> #[trigger] gain@[v] as int == sat.flip_gain(x@, v),
            decreases n - i,
        {
            let g = sat.calc_gain(x.as_slice(), i);
            gain.push(g);
            i += 1;
        }
        let n_satisfied = sat.calc_satisfied(x.as_slice());
        SatSolution { x, gain, n_satisfied }
    }

    /// A copy of the solution, field by field.
    pub fn duplicate(&self) -> (r: SatSolution)
        ensures
            r.x@ == self.x@,
            r.gain@ == self.gain@,
            r.n_satisfied == self.n_satisfied,
    {
        SatSolution {
            x: crate::qubo_solution::copy_vec(&self.x),
            gain: crate::qubo_solution::copy_vec(&self.gain),
            n_satisfied: self.n_satisfied,
        }
    }
}

impl Sat {
    /// A random solution: every variable is set by a fair coin.
    pub fn new_solution(&self, rng: &mut SmallRng) -> (r: SatSolution)
        requires
            self.wf(),
            self.cls().len() <= i64::MAX,
        ensures
            r.consistent(*self),
    {
        let n = self.n_vars();
        let mut x: Vec<bool> = Vec::new();
        let mut i: usize = 0;
        while i < n
            invariant
                0 <= i <= n,
                x@.len() == i,
            decreases n - i,
        {
            let b = half_chance(rng);
            x.push(b);
            i += 1;
        }
        SatSolution::new_from_assignment(self, x)
    }
}

/// A flip move that toggles variable `i`; `gain` is the change in the number
/// of satisfied clauses (positive is an improvement).
#[derive(Debug, Clone, Copy)]
pub struct SatFlipNeighbor {
    /// Index of the variable to flip.
    pub i: usize,
    /// Change in satisfied-clause count when this variable is flipped.
    pub gain: i64,
}

impl SatFlipNeighbor {
    /// Applies the flip: toggles `x[i]`, adds `gain` to `n_satisfied`, sets
    /// `gain[i]` to `-gain`, and recomputes the gain of every variable that
    /// shares a clause with `i`. On a consistent solution, with `gain` read
    /// from it, the result is consistent.
    pub fn apply_to_solution(&self, prob: &Sat, sol: &mut SatSolution)
        requires
            old(sol).consistent(*prob),
            (self.i as int) < prob.nv(),
            self.gain == old(sol).gain@[self.i as int],
            prob.cls().len() <= i64::MAX,
        ensures
            final(sol).consistent(*prob),
            final(sol).x@ == flip(old(sol).x@, self.i as int),
    {
        proof {
            prob.lemma_wf();
            prob.lemma_num_satisfied_bounds(sol.x@);
            prob.lemma_num_satisfied_bounds(flip(sol.x@, self.i as int));
        }
        let i = self.i;
        let ghost x0 = sol.x@;
        let ghost g0 = sol.gain@;
        let xi = sol.x[i];
        sol.x.set(i, !xi);
        let n_sat = (sol.n_satisfied as i64 + self.gain) as usize;
        sol.n_satisfied = n_sat;
        sol.gain.set(i, -self.gain);
        let nbrs = prob.var_neighbors(i);
        proof {
            prob.lemma_flip_gain_after_flip(x0, i as int, i as int);
            assert(nbrs@.take(0) =~= Seq::<usize>::empty());
        }
        let mut t: usize = 0;
        while t < nbrs.len()
            invariant
                0 <= t <= nbrs@.len(),
                prob.wf(),
                prob.cls().len() <= i64::MAX,
                i < prob.nv(),
                prob.nv() <= usize::MAX,
                nbrs@ == prob.nbrs(i as int),
                forall|w: usize| #[trigger] nbrs@.contains(w) <==> (w != i && w < prob.nv() && prob.share_clause(i as int, w as int)),
                crate::sorted::strictly_sorted(nbrs@),
                sol.x@ == flip(x0, i as int),
                x0.len() == prob.nv(),
                sol.gain@.len() == prob.nv(),
                sol.n_satisfied as int == prob.num_satisfied(sol.x@),
                forall|v: int| 0 <= v < prob.nv() ==> #[trigger] sol.gain@[v] as int == (
                    if v == i as int || nbrs@.take(t as int).contains(v as usize) { prob.flip_gain(sol.x@, v) } else { g0[v] as int }),
                forall|v: int| 0 <= v < prob.nv() ==> #[trigger] g0[v] as int == prob.flip_gain(x0, v),
            decreases nbrs@.len() - t,
        {
            let j = nbrs[t];
            proof {
                assert(nbrs@.contains(j));
            }
            let g = prob.calc_gain(sol.x.as_slice(), j);
            sol.gain.set(j, g);
            proof {
                assert forall|v: int| 0 <= v < prob.nv() implies #[trigger] sol.gain@[v] as int == (
                    if v == i as int || nbrs@.take(t as int + 1).contains(v as usize) { prob.flip_gain(sol.x@, v) } else { g0[v] as int }) by {
                    assert(nbrs@.take(t as int + 1) =~= nbrs@.take(t as int).push(j));
                    if v == j as int {
                        assert(nbrs@.take(t as int + 1)[t as int] == j);
                    } else {
                        if nbrs@.take(t as int).contains(v as usize) {
                            let s = choose|s: int| 0 <= s < t && #[trigger] nbrs@.take(t as int)[s] == v as usize;
                            assert(nbrs@.take(t as int + 1)[s] == v as usize);
                        }
                        if nbrs@.take(t as int + 1).contains(v as usize) {
                            let s = choose|s: int| 0 <= s < t + 1 && #[trigger] nbrs@.take(t as int + 1)[s] == v as usize;
                            assert(v as usize != j);
                            assert(s != t);
                            assert(nbrs@.take(t as int)[s] == v as usize);
                        }
                    }
                }
            }
            t += 1;
        }
        proof {
            assert(nbrs@.take(nbrs@.len() as int) =~= nbrs@);
            assert forall|v: int| 0 <= v < prob.nv() implies #[trigger] sol.gain@[v] as int == prob.flip_gain(sol.x@, v) by {
                if v != i as int && !nbrs@.contains(v as usize) {
                    let w = v as usize;
                    assert(w as int == v);
                    assert(!nbrs@.contains(w));
                    assert(w != i);
                    assert(!prob.share_clause(i as int, w as int));
                    prob.lemma_flip_gain_after_flip(x0, i as int, v);
                }
            }
        }
    }

    /// A flip counts as one iteration.
    pub fn apply_to_iteration(&self, iter: u64) -> (r: u64)
        requires
            iter < u64::MAX,
        ensures
            r == iter + 1,
    {
        iter + 1
    }

    /// The flip of every variable, in order, with its gain read from `sol`.
    pub fn iter(prob: &Sat, sol: &SatSolution) -> (r: Vec<SatFlipNeighbor>)
        requires
            sol.gain@.len() >= prob.nv(),
        ensures
            r@.len() == prob.nv(),
            forall|k: int| 0 <= k < r@.len() ==> (#[trigger] r@[k]).i == k && r@[k].gain == sol.gain@[k],
    {
        let n = prob.n_vars();
        let mut r: Vec<SatFlipNeighbor> = Vec::new();
        let mut i: usize = 0;
        while i < n
            invariant
                0 <= i <= n,
                n == prob.nv(),
                sol.gain@.len() >= n,
                r@.len() == i,
                forall|k: int| 0 <= k < i ==> (#[trigger] r@[k]).i == k && r@[k].gain == sol.gain@[k],
            decreases n - i,
        {
            r.push(SatFlipNeighbor { i, gain: sol.gain[i] });
            i += 1;
        }
        r
    }

    /// Whether applying the move to `src` gives more satisfied clauses than
    /// `other` has.
    pub fn move_to_be_better_than(&self, src: &SatSolution, other: &SatSolution) -> (r: bool)
        requires
            src.n_satisfied <= i64::MAX,
            other.n_satisfied <= i64::MAX,
            i64::MIN <= src.n_satisfied + self.gain <= i64::MAX,
        ensures
            r == (src.n_satisfied + self.gain > other.n_satisfied),
    {
        (src.n_satisfied as i64 + self.gain) > other.n_satisfied as i64
    }
}

/// Positions `a < b` of the clause name the pair `(i, j)`, smaller first.
pub open spec fn pair_at(cl: Seq<i64>, a: int, b: int, i: int, j: int) -> bool {
    &&& 0 <= a < b < cl.len()
    &&& i == vstd::math::min(var_of(cl[a]), var_of(cl[b]))
    &&& j == vstd::math::max(var_of(cl[a]), var_of(cl[b]))
}

/// Some clause names the pair `(i, j)` at two of its positions.
pub open spec fn clause_pair(cls: Seq<Seq<i64>>, i: int, j: int) -> bool {
    exists|c: int, a: int, b: int| 0 <= c < cls.len() && #[trigger] pair_at(cls[c], a, b, i, j)
}

impl Sat {
    /// The flip of variable `i`, with its gain read from `sol`.
    pub fn flip_move(sol: &SatSolution, i: usize) -> (r: SatFlipNeighbor)
        requires
            i < sol.gain@.len(),
        ensures
            r.i == i,
            r.gain == sol.gain@[i as int],
    {
        SatFlipNeighbor { i, gain: sol.gain[i] }
    }
}

/// A swap move that flips variables `i` and `j` together; `gain` is the
/// combined change in satisfied clauses (positive is an improvement).
#[derive(Debug, Clone, Copy)]
pub struct SatSwapNeighbor {
    /// Index of the first variable to flip.
    pub i: usize,
    /// Index of the second variable to flip.
    pub j: usize,
    /// Combined change in satisfied-clause count.
    pub gain: i64,
}

impl SatSwapNeighbor {
    /// A swap counts as two iterations, one per flipped variable.
    pub fn apply_to_iteration(&self, iter: u64) -> (r: u64)
        requires
            iter <= u64::MAX - 2,
        ensures
            r == iter + 2,
    {
        iter + 2
    }

    /// Applies the swap as two flips: first `i`, then `j`, each with the
    /// gain the solution holds at that point. The result is consistent.
    pub fn apply_to_solution(&self, prob: &Sat, sol: &mut SatSolution)
        requires
            old(sol).consistent(*prob),
            (self.i as int) < prob.nv(),
            (self.j as int) < prob.nv(),
            prob.cls().len() <= i64::MAX,
        ensures
            final(sol).consistent(*prob),
            final(sol).x@ == flip(flip(old(sol).x@, self.i as int), self.j as int),
    {
        let first = SatFlipNeighbor { i: self.i, gain: sol.gain[self.i] };
        first.apply_to_solution(prob, sol);
        let second = SatFlipNeighbor { i: self.j, gain: sol.gain[self.j] };
        second.apply_to_solution(prob, sol);
    }

    /// Every pair of variables that two positions of some clause name, once
    /// each and smaller first, in the order they are first met, with gain
    /// `gain[i]` plus the gain of `j` after `i` is flipped: the change in
    /// satisfied clauses when both are flipped.
    pub fn iter(prob: &Sat, sol: &SatSolution) -> (r: Vec<SatSwapNeighbor>)
        requires
            sol.consistent(*prob),
            prob.cls().len() <= i64::MAX,
        ensures
            forall|k: int| 0 <= k < r@.len() ==> {
                let m = #[trigger] r@[k];
                &&& m.i <= m.j < prob.nv()
                &&& clause_pair(prob.cls(), m.i as int, m.j as int)
                &&& m.gain == prob.num_satisfied(flip(flip(sol.x@, m.i as int), m.j as int)) - prob.num_satisfied(sol.x@)
            },
            forall|k1: int, k2: int| 0 <= k1 < r@.len() && 0 <= k2 < r@.len() && k1 != k2 ==>
                (#[trigger] r@[k1]).i != (#[trigger] r@[k2]).i || r@[k1].j != r@[k2].j,
            forall|c: int, a: int, b: int, i: int, j: int| 0 <= c < prob.cls().len() && #[trigger] pair_at(prob.cls()[c], a, b, i, j)
                ==> exists|k: int| 0 <= k < r@.len() && #[trigger] r@[k].i == i && r@[k].j == j,
    {
        proof {
            prob.lemma_wf();
        }
        let n = prob.n_vars();
        let mut seen: Vec<Vec<usize>> = Vec::new();
        let mut v: usize = 0;
        while v < n
            invariant
                0 <= v <= n,
                seen@.len() == v,
                forall|u: int| 0 <= u < v ==> (#[trigger] seen@[u])@.len() == 0,
            decreases n - v,
        {
            seen.push(Vec::new());
            v += 1;
        }
        let clauses = prob.all_clauses();
        let mut r: Vec<SatSwapNeighbor> = Vec::new();
        let mut c: usize = 0;
        while c < clauses.len()
            invariant
                0 <= c <= clauses@.len(),
                clauses@.len() == prob.cls().len(),
                forall|cc: int| 0 <= cc < clauses@.len() ==> #[trigger] clauses@[cc]@ == prob.cls()[cc],
                sol.consistent(*prob),
                prob.cls().len() <= i64::MAX,
                n == prob.nv(),
                n <= usize::MAX,
                forall|cc: int, k: int| 0 <= cc < prob.cls().len() && 0 <= k < prob.cls()[cc].len()
                    ==> valid_lit(#[trigger] prob.cls()[cc][k], prob.nv() as int),
                seen@.len() == n,
                forall|u: int| 0 <= u < n ==> crate::sorted::strictly_sorted(#[trigger] seen@[u]@),
                forall|u: int, w: usize| 0 <= u < n ==> (#[trigger] seen@[u]@.contains(w) <==>
                    exists|k: int| 0 <= k < r@.len() && #[trigger] r@[k].i == u && r@[k].j == w),
                forall|k: int| 0 <= k < r@.len() ==> {
                    let m = #[trigger] r@[k];
                    &&& m.i <= m.j < prob.nv()
                    &&& clause_pair(prob.cls(), m.i as int, m.j as int)
                    &&& m.gain == prob.num_satisfied(flip(flip(sol.x@, m.i as int), m.j as int)) - prob.num_satisfied(sol.x@)
                },
                forall|k1: int, k2: int| 0 <= k1 < r@.len() && 0 <= k2 < r@.len() && k1 != k2 ==>
                    (#[trigger] r@[k1]).i != (#[trigger] r@[k2]).i || r@[k1].j != r@[k2].j,
                forall|cc: int, a: int, b: int, i: int, j: int| 0 <= cc < c && #[trigger] pair_at(prob.cls()[cc], a, b, i, j)
                    ==> exists|k: int| 0 <= k < r@.len() && #[trigger] r@[k].i == i && r@[k].j == j,
            decreases clauses@.len() - c,
        {
            let clause = clauses[c].as_slice();
            let mut a: usize = 0;
            while a < clause.len()
                invariant
                    0 <= a <= clause@.len(),
                    c < clauses@.len(),
                    clause@ == prob.cls()[c as int],
                    clauses@.len() == prob.cls().len(),
                    forall|cc: int| 0 <= cc < clauses@.len() ==> #[trigger] clauses@[cc]@ == prob.cls()[cc],
                    sol.consistent(*prob),
                    prob.cls().len() <= i64::MAX,
                    n == prob.nv(),
                    n <= usize::MAX,
                    forall|cc: int, k: int| 0 <= cc < prob.cls().len() && 0 <= k < prob.cls()[cc].len()
                        ==> valid_lit(#[trigger] prob.cls()[cc][k], prob.nv() as int),
                    seen@.len() == n,
                    forall|u: int| 0 <= u < n ==> crate::sorted::strictly_sorted(#[trigger] seen@[u]@),
                    forall|u: int, w: usize| 0 <= u < n ==> (#[trigger] seen@[u]@.contains(w) <==>
                        exists|k: int| 0 <= k < r@.len() && #[trigger] r@[k].i == u && r@[k].j == w),
                    forall|k: int| 0 <= k < r@.len() ==> {
                        let m = #[trigger] r@[k];
                        &&& m.i <= m.j < prob.nv()
                        &&& clause_pair(prob.cls(), m.i as int, m.j as int)
                        &&& m.gain == prob.num_satisfied(flip(flip(sol.x@, m.i as int), m.j as int)) - prob.num_satisfied(sol.x@)
                    },
                    forall|k1: int, k2: int| 0 <= k1 < r@.len() && 0 <= k2 < r@.len() && k1 != k2 ==>
                        (#[trigger] r@[k1]).i != (#[trigger] r@[k2]).i || r@[k1].j != r@[k2].j,
                    forall|cc: int, aa: int, b: int, i: int, j: int| 0 <= cc < c && #[trigger] pair_at(prob.cls()[cc], aa, b, i, j)
                        ==> exists|k: int| 0 <= k < r@.len() && #[trigger] r@[k].i == i && r@[k].j == j,
                    forall|aa: int, b: int, i: int, j: int| aa < a && #[trigger] pair_at(prob.cls()[c as int], aa, b, i, j)
                        ==> exists|k: int| 0 <= k < r@.len() && #[trigger] r@[k].i == i && r@[k].j == j,
                decreases clause@.len() - a,
            {
                let mut b = a + 1;
                while b < clause.len()
                    invariant
                        a < b <= clause@.len(),
                        c < clauses@.len(),
                        clause@ == prob.cls()[c as int],
                        clauses@.len() == prob.cls().len(),
                        sol.consistent(*prob),
                        prob.cls().len() <= i64::MAX,
                        n == prob.nv(),
                        n <= usize::MAX,
                        forall|cc: int, k: int| 0 <= cc < prob.cls().len() && 0 <= k < prob.cls()[cc].len()
                            ==> valid_lit(#[trigger] prob.cls()[cc][k], prob.nv() as int),
                        seen@.len() == n,
                        forall|u: int| 0 <= u < n ==> crate::sorted::strictly_sorted(#[trigger] seen@[u]@),
                        forall|u: int, w: usize| 0 <= u < n ==> (#[trigger] seen@[u]@.contains(w) <==>
                            exists|k: int| 0 <= k < r@.len() && #[trigger] r@[k].i == u && r@[k].j == w),
                        forall|k: int| 0 <= k < r@.len() ==> {
                            let m = #[trigger] r@[k];
                            &&& m.i <= m.j < prob.nv()
                            &&& clause_pair(prob.cls(), m.i as int, m.j as int)
                            &&& m.gain == prob.num_satisfied(flip(flip(sol.x@, m.i as int), m.j as int)) - prob.num_satisfied(sol.x@)
                        },
                        forall|k1: int, k2: int| 0 <= k1 < r@.len() && 0 <= k2 < r@.len() && k1 != k2 ==>
                            (#[trigger] r@[k1]).i != (#[trigger] r@[k2]).i || r@[k1].j != r@[k2].j,
                        forall|cc: int, aa: int, bb: int, i: int, j: int| 0 <= cc < c && #[trigger] pair_at(prob.cls()[cc], aa, bb, i, j)
                            ==> exists|k: int| 0 <= k < r@.len() && #[trigger] r@[k].i == i && r@[k].j == j,
                        forall|aa: int, bb: int, i: int, j: int| aa < a && #[trigger] pair_at(prob.cls()[c as int], aa, bb, i, j)
                            ==> exists|k: int| 0 <= k < r@.len() && #[trigger] r@[k].i == i && r@[k].j == j,
                        forall|bb: int, i: int, j: int| bb < b && #[trigger] pair_at(prob.cls()[c as int], a as int, bb, i, j)
                            ==> exists|k: int| 0 <= k < r@.len() && #[trigger] r@[k].i == i && r@[k].j == j,
                    decreases clause@.len() - b,
                {
                    proof {
                        assert(valid_lit(prob.cls()[c as int][a as int], n as int));
                        assert(valid_lit(prob.cls()[c as int][b as int], n as int));
                    }
                    let va = crate::sat::var_index(clause[a], n);
                    let vb = crate::sat::var_index(clause[b], n);
                    let i = if va < vb { va } else { vb };
                    let j = if va < vb { vb } else { va };
                    proof {
                        assert(pair_at(prob.cls()[c as int], a as int, b as int, i as int, j as int));
                    }
                    let before = seen[i].len();
                    let ghost seen_i = seen@[i as int]@;
                    assert(before == seen_i.len());
                    let ghost seen0 = seen@;
                    let ghost r0 = r@;
                    insert_seen(&mut seen, i, j);
                    let inserted = seen[i].len() != before;
                    if inserted {
                        proof {
                            prob.lemma_num_satisfied_bounds(sol.x@);
                            prob.lemma_num_satisfied_bounds(flip(sol.x@, i as int));
                            prob.lemma_num_satisfied_bounds(flip(flip(sol.x@, i as int), j as int));
                        }
                        let g = sol.gain[i] + prob.calc_gain_with_virtual_flip(sol.x.as_slice(), i, j);
                        r.push(SatSwapNeighbor { i, j, gain: g });
                    }
                    proof {
                        assert(seen@[i as int]@.to_set().contains(j));
                        assert(seen@[i as int]@.contains(j));
                        if inserted {
                            assert(!seen_i.contains(j));
                            assert forall|k: int| 0 <= k < r0.len() implies !(#[trigger] r0[k].i == i && r0[k].j == j) by {
                                if r0[k].i == i && r0[k].j == j {
                                    assert(seen_i.contains(j));
                                }
                            }
                            assert(r@ == r0.push(r@[r0.len() as int]));
                            assert forall|u: int, w: usize| 0 <= u < n implies (#[trigger] seen@[u]@.contains(w) <==>
                                exists|k: int| 0 <= k < r@.len() && #[trigger] r@[k].i == u && r@[k].j == w) by {
                                if u == i as int {
                                    assert(seen@[u]@.to_set().contains(w) == seen_i.to_set().insert(j).contains(w));
                                    if exists|k: int| 0 <= k < r@.len() && #[trigger] r@[k].i == u && r@[k].j == w {
                                        let k = choose|k: int| 0 <= k < r@.len() && #[trigger] r@[k].i == u && r@[k].j == w;
                                        if k < r0.len() {
                                            assert(r0[k] == r@[k]);
                                        }
                                    }
                                    if seen_i.contains(w) {
                                        assert(seen0[u]@.contains(w));
                                        let k = choose|k: int| 0 <= k < r0.len() && #[trigger] r0[k].i == u && r0[k].j == w;
                                        assert(r@[k] == r0[k]);
                                    }
                                    if w == j {
                                        assert(r@[r0.len() as int].i == u && r@[r0.len() as int].j == w);
                                    }
                                } else {
                                    assert(seen@[u] == seen0[u]);
                                    if exists|k: int| 0 <= k < r@.len() && #[trigger] r@[k].i == u && r@[k].j == w {
                                        let k = choose|k: int| 0 <= k < r@.len() && #[trigger] r@[k].i == u && r@[k].j == w;
                                        assert(k < r0.len());
                                        assert(r0[k] == r@[k]);
                                    }
                                    if seen0[u]@.contains(w) {
                                        let k = choose|k: int| 0 <= k < r0.len() && #[trigger] r0[k].i == u && r0[k].j == w;
                                        assert(r@[k] == r0[k]);
                                    }
                                }
                            }
                            assert forall|k1: int, k2: int| 0 <= k1 < r@.len() && 0 <= k2 < r@.len() && k1 != k2 implies
                                (#[trigger] r@[k1]).i != (#[trigger] r@[k2]).i || r@[k1].j != r@[k2].j by {
                                if k1 < r0.len() && k2 < r0.len() {
                                    assert(r@[k1] == r0[k1] && r@[k2] == r0[k2]);
                                } else if k1 < r0.len() {
                                    assert(r@[k1] == r0[k1]);
                                } else {
                                    assert(r@[k2] == r0[k2]);
                                }
                            }
                            assert forall|k: int| 0 <= k < r@.len() implies {
                                let m = #[trigger] r@[k];
                                &&& m.i <= m.j < prob.nv()
                                &&& clause_pair(prob.cls(), m.i as int, m.j as int)
                                &&& m.gain == prob.num_satisfied(flip(flip(sol.x@, m.i as int), m.j as int)) - prob.num_satisfied(sol.x@)
                            } by {
                                if k < r0.len() {
                                    assert(r@[k] == r0[k]);
                                } else {
                                    assert(pair_at(prob.cls()[c as int], a as int, b as int, i as int, j as int));
                                }
                            }
                            assert forall|cc: int, aa: int, bb: int, ii: int, jj: int| 0 <= cc < c && #[trigger] pair_at(prob.cls()[cc], aa, bb, ii, jj)
                                implies exists|k: int| 0 <= k < r@.len() && #[trigger] r@[k].i == ii && r@[k].j == jj by {
                                let k = choose|k: int| 0 <= k < r0.len() && #[trigger] r0[k].i == ii && r0[k].j == jj;
                                assert(r@[k] == r0[k]);
                            }
                            assert forall|aa: int, bb: int, ii: int, jj: int| aa < a && #[trigger] pair_at(prob.cls()[c as int], aa, bb, ii, jj)
                                implies exists|k: int| 0 <= k < r@.len() && #[trigger] r@[k].i == ii && r@[k].j == jj by {
                                let k = choose|k: int| 0 <= k < r0.len() && #[trigger] r0[k].i == ii && r0[k].j == jj;
                                assert(r@[k] == r0[k]);
                            }
                            assert forall|bb: int, ii: int, jj: int| bb < b && #[trigger] pair_at(prob.cls()[c as int], a as int, bb, ii, jj)
                                implies exists|k: int| 0 <= k < r@.len() && #[trigger] r@[k].i == ii && r@[k].j == jj by {
                                let k = choose|k: int| 0 <= k < r0.len() && #[trigger] r0[k].i == ii && r0[k].j == jj;
                                assert(r@[k] == r0[k]);
                            }
                        } else {
                            assert(before == seen_i.len());
                            assert(seen_i.contains(j));
                            assert forall|u: int| 0 <= u < n implies #[trigger] seen@[u]@ == seen0[u]@ by {}
                            assert(r@ == r0);
                        }
                    }
                    b += 1;
                }
                a += 1;
            }
            c += 1;
        }
        r
    }
}

/// Records `j` in the strictly increasing list `seen[i]`.
fn insert_seen(seen: &mut Vec<Vec<usize>>, i: usize, j: usize)
    requires
        (i as int) < old(seen)@.len(),
        crate::sorted::strictly_sorted(old(seen)@[i as int]@),
    ensures
        final(seen)@.len() == old(seen)@.len(),
        forall|u: int| 0 <= u < old(seen)@.len() && u != i ==> #[trigger] final(seen)@[u] == old(seen)@[u],
        crate::sorted::strictly_sorted(final(seen)@[i as int]@),
        final(seen)@[i as int]@.to_set() == old(seen)@[i as int]@.to_set().insert(j),
        old(seen)@[i as int]@.contains(j) ==> final(seen)@[i as int]@ == old(seen)@[i as int]@,
        !old(seen)@[i as int]@.contains(j) ==> final(seen)@[i as int]@.len() == old(seen)@[i as int]@.len() + 1,
{
    crate::sorted::insert_unique_sorted(&mut seen[i], j);
}

} // verus!
