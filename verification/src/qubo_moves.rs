//! Neighborhood moves of the QUBO problem: flipping one variable, and
//! swapping two variables of opposite values.

use vstd::prelude::*;
use rand::rngs::SmallRng;
use crate::rng::below;
use crate::sparse_row::{keys_unique, row_lookup, lemma_lookup_absent};
use crate::qubo::{Qubo, Coefficient};
use crate::qubo_solution::QuboSolution;

verus! {

/// A flip move that toggles a single variable `i`.
///
/// `gain` is the change in energy after the flip (negative is an improvement,
/// since QUBO is minimized).
#[derive(Debug, Clone, Copy)]
pub struct QuboFlipNeighbor {
    /// Index of the variable to flip.
    pub i: usize,
    /// Change in objective value when this variable is flipped.
    pub gain: Coefficient,
}

/// How flipping `i` moves the gain of `j`: `Q[i][j]` when `x[i]` and `x[j]`
/// agree, `-Q[i][j]` when they differ.
pub open spec fn neighbor_delta(q: Qubo, x: Seq<bool>, i: int, j: int) -> int {
    if x[i] == x[j] {
        q.coef(i, j)
    } else {
        -q.coef(i, j)
    }
}

impl QuboFlipNeighbor {
    /// Every value the move writes fits an `i32`.
    pub open spec fn fits(self, q: Qubo, sol: QuboSolution) -> bool {
        &&& self.gain > i32::MIN
        &&& i32::MIN <= sol.objective + self.gain <= i32::MAX
        &&& forall|j: int| #[trigger] q.coef(self.i as int, j) > i32::MIN
        &&& forall|j: int| 0 <= j < q.dim() && j != self.i ==>
            i32::MIN <= #[trigger] sol.gain@[j] + neighbor_delta(q, sol.x@, self.i as int, j) <= i32::MAX
    }

    /// On a consistent solution of an instance whose gains and energies fit
    /// an `i32`, the flip move read from the solution fits.
    pub proof fn lemma_fits(q: Qubo, sol: QuboSolution, i: int)
        requires
            sol.consistent(q),
            q.fits_i32(),
            0 <= i < q.dim(),
        ensures
            (QuboFlipNeighbor { i: i as usize, gain: sol.gain@[i] }).fits(q, sol),
    {
        q.lemma_wf();
        let x = sol.x@;
        let y = x.update(i, !x[i]);
        q.lemma_energy_flip(x, i);
        assert(i32::MIN <= q.flip_gain(x, i) <= i32::MAX);
        q.lemma_flip_gain_flip_self(x, i);
        assert(i32::MIN <= q.flip_gain(y, i) <= i32::MAX);
        assert(i32::MIN <= q.energy(y) <= i32::MAX);
        assert forall|j: int| 0 <= j < q.dim() && j != i implies
            i32::MIN <= #[trigger] sol.gain@[j] + neighbor_delta(q, x, i, j) <= i32::MAX by {
            q.lemma_flip_gain_flip_other(x, i, j);
            assert(i32::MIN <= q.flip_gain(y, j) <= i32::MAX);
        }
    }

    /// Applies the flip: toggles `x[i]`, sets `gain[i]` to `-gain`, moves the
    /// gain of every other variable `j` by [`neighbor_delta`], adds `gain` to
    /// the objective, and keeps the negative-gain index in step.
    ///
    /// On a consistent solution, with `gain` read from it, the result is
    /// consistent again (the flip law, [`Qubo::lemma_energy_flip`]).
    pub fn apply_to_solution(&self, prob: &Qubo, sol: &mut QuboSolution)
        requires
            prob.wf(),
            (self.i as int) < prob.dim(),
            old(sol).x@.len() >= prob.dim(),
            old(sol).gain@.len() == prob.dim(),
            old(sol).index().matches(old(sol).gain@),
            self.fits(*prob, *old(sol)),
        ensures
            final(sol).x@ == old(sol).x@.update(self.i as int, !old(sol).x@[self.i as int]),
            final(sol).gain@.len() == prob.dim(),
            final(sol).gain@[self.i as int] == -self.gain,
            forall|j: int| 0 <= j < prob.dim() && j != self.i ==> #[trigger] final(sol).gain@[j]
                == old(sol).gain@[j] + neighbor_delta(*prob, old(sol).x@, self.i as int, j),
            final(sol).objective == old(sol).objective + self.gain,
            final(sol).index().matches(final(sol).gain@),
            final(sol).index().is_on() == old(sol).index().is_on(),
            old(sol).consistent(*prob) && self.gain == old(sol).gain@[self.i as int] ==> final(sol).consistent(*prob),
    {
        proof {
            prob.lemma_wf();
        }
        let ghost x0 = sol.x@;
        let ghost g0 = sol.gain@;
        let i = self.i;
        let bi = sol.x[i];
        sol.x.set(i, !bi);
        let new_gain_i = -self.gain;
        sol.update_negative_gain_membership(i, new_gain_i);
        sol.gain.set(i, new_gain_i);
        let row = prob.iter_on_adjacency(i);
        let mut k: usize = 0;
        while k < row.len()
            invariant
                0 <= k <= row@.len(),
                prob.wf(),
                (i as int) < prob.dim(),
                row@ == prob.row(i as int),
                keys_unique(row@),
                forall|kk: int| 0 <= kk < row@.len() ==> #[trigger] row@[kk].0 < prob.dim(),
                forall|j: int| #[trigger] prob.entry(i as int, j) == row_lookup(row@, j),
                bi == x0[i as int],
                x0.len() >= prob.dim(),
                g0.len() == prob.dim(),
                sol.x@ == x0.update(i as int, !x0[i as int]),
                sol.gain@.len() == prob.dim(),
                sol.gain@[i as int] == -self.gain,
                sol.objective == old(sol).objective,
                sol.index().matches(sol.gain@),
                sol.index().is_on() == old(sol).index().is_on(),
                self.fits(*prob, *old(sol)),
                self.i == i,
                old(sol).x@ == x0,
                old(sol).gain@ == g0,
                forall|j: int| 0 <= j < prob.dim() && j != i ==> #[trigger] sol.gain@[j] == (
                    if exists|kk: int| 0 <= kk < k && row@[kk].0 as int == j {
                        g0[j] + neighbor_delta(*prob, x0, i as int, j)
                    } else {
                        g0[j] as int
                    }),
            decreases row@.len() - k,
        {
            let (j, q) = row[k];
            if j != i {
                proof {
                    lemma_lookup_at_key(row@, k as int);
                    assert(prob.coef(i as int, j as int) == q);
                    assert(!(exists|kk: int| 0 <= kk < k && row@[kk].0 == j)) by {
                        if exists|kk: int| 0 <= kk < k && row@[kk].0 == j {
                            let kk = choose|kk: int| 0 <= kk < k && row@[kk].0 == j;
                            assert(row@[kk].0 == row@[k as int].0);
                        }
                    }
                    assert(sol.gain@[j as int] == g0[j as int]);
                    assert(sol.x@[j as int] == x0[j as int]);
                }
                let bj = sol.x[j];
                let delta = if bi == bj { q } else { -q };
                let new_g = sol.gain[j] + delta;
                sol.update_negative_gain_membership(j, new_g);
                let ghost before = sol.gain@;
                sol.gain.set(j, new_g);
                proof {
                    if sol.index().is_on() {
                        assert forall|v: int| 0 <= v < sol.gain@.len() implies (sol.index().has(v) <==> #[trigger] sol.gain@[v] < 0) by {
                            if v != j as int {
                                assert(sol.gain@[v] == before[v]);
                            }
                        }
                    }
                }
            }
            proof {
                assert forall|v: int| 0 <= v < prob.dim() && v != i implies #[trigger] sol.gain@[v] == (
                    if exists|kk: int| 0 <= kk < k + 1 && row@[kk].0 as int == v {
                        g0[v] + neighbor_delta(*prob, x0, i as int, v)
                    } else {
                        g0[v] as int
                    }) by {
                    if v == j as int {
                        assert(row@[k as int].0 as int == v);
                    } else if exists|kk: int| 0 <= kk < k + 1 && row@[kk].0 as int == v {
                        let kk = choose|kk: int| 0 <= kk < k + 1 && row@[kk].0 as int == v;
                        assert(kk != k);
                    }
                }
            }
            k += 1;
        }
        sol.objective = sol.objective + self.gain;
        proof {
            assert forall|j: int| 0 <= j < prob.dim() && j != self.i implies #[trigger] sol.gain@[j]
                == g0[j] + neighbor_delta(*prob, x0, i as int, j) by {
                if !(exists|kk: int| 0 <= kk < row@.len() && row@[kk].0 as int == j) {
                    assert forall|kk: int| 0 <= kk < row@.len() implies #[trigger] row@[kk].0 as int != j by {
                        if row@[kk].0 as int == j {
                            assert(exists|kk2: int| 0 <= kk2 < row@.len() && row@[kk2].0 as int == j);
                        }
                    }
                    lemma_lookup_absent(row@, j);
                }
            }
            if old(sol).consistent(*prob) && self.gain == g0[i as int] {
                prob.lemma_energy_flip(x0, i as int);
                prob.lemma_flip_gain_flip_self(x0, i as int);
                assert forall|j: int| 0 <= j < prob.dim() implies #[trigger] sol.gain@[j] as int == prob.flip_gain(sol.x@, j) by {
                    if j != i {
                        prob.lemma_flip_gain_flip_other(x0, i as int, j);
                    }
                }
            }
        }
    }

    /// All flip moves, one per variable, with the gains read from `sol`.
    pub fn iter(prob: &Qubo, sol: &QuboSolution) -> (r: Vec<QuboFlipNeighbor>)
        requires
            prob.wf(),
            sol.gain@.len() == prob.dim(),
        ensures
            r@.len() == prob.vars().len(),
            forall|k: int| 0 <= k < r@.len() ==> #[trigger] r@[k] == (QuboFlipNeighbor {
                i: prob.vars()[k],
                gain: sol.gain@[prob.vars()[k] as int],
            }),
    {
        proof {
            prob.lemma_wf();
        }
        let vars = prob.iter_on_variables();
        let mut r: Vec<QuboFlipNeighbor> = Vec::new();
        let mut t: usize = 0;
        while t < vars.len()
            invariant
                0 <= t <= vars@.len(),
                vars@ == prob.vars(),
                sol.gain@.len() == prob.dim(),
                forall|k: int| 0 <= k < vars@.len() ==> #[trigger] vars@[k] < prob.dim(),
                r@.len() == t,
                forall|k: int| 0 <= k < t ==> #[trigger] r@[k] == (QuboFlipNeighbor {
                    i: vars@[k],
                    gain: sol.gain@[vars@[k] as int],
                }),
            decreases vars@.len() - t,
        {
            let i = vars[t];
            r.push(QuboFlipNeighbor { i, gain: sol.gain[i] });
            t += 1;
        }
        r
    }

    /// Whether applying the move to `src` gives a lower objective than `other`.
    pub fn move_to_be_better_than(&self, src: &QuboSolution, other: &QuboSolution) -> (r: bool)
        requires
            i32::MIN <= self.gain + src.objective <= i32::MAX,
        ensures
            r == (self.gain + src.objective < other.objective),
    {
        self.gain + src.objective < other.objective
    }

    /// A flip of a uniformly drawn variable of the problem, with its gain read
    /// from `sol`.
    pub fn random_neighbor(prob: &Qubo, sol: &QuboSolution, rng: &mut SmallRng) -> (r: QuboFlipNeighbor)
        requires
            prob.wf(),
            prob.vars().len() > 0,
            sol.gain@.len() == prob.dim(),
        ensures
            prob.vars().contains(r.i),
            r.gain == sol.gain@[r.i as int],
    {
        proof {
            prob.lemma_wf();
        }
        let vars = prob.iter_on_variables();
        let k = below(rng, vars.len());
        let i = vars[k];
        proof {
            assert(prob.vars()[k as int] == i);
        }
        QuboFlipNeighbor { i, gain: sol.gain[i] }
    }
}

/// `x` with `i` flipped and then `j` flipped.
pub open spec fn flip2(x: Seq<bool>, i: int, j: int) -> Seq<bool> {
    let y = x.update(i, !x[i]);
    y.update(j, !y[j])
}

/// For every assignment, the swap gain of two variables of opposite values,
/// `gain[i] + gain[j] - Q[i][j]`, fits an `i32` at each step of its sum.
pub open spec fn pair_fits(q: Qubo) -> bool {
    forall|x: Seq<bool>, i: int, j: int|
        x.len() >= q.dim() && 0 <= i < q.dim() && 0 <= j < q.dim() && x[i] != x[j] ==> {
            &&& i32::MIN <= #[trigger] q.flip_gain(x, i) + #[trigger] q.flip_gain(x, j) <= i32::MAX
            &&& i32::MIN <= q.flip_gain(x, i) + q.flip_gain(x, j) - q.coef(i, j) <= i32::MAX
        }
}

/// A swap move that flips variables `i` and `j` together.
///
/// Only pairs where `i` and `j` have different values are generated.
/// `gain` is the combined change in energy (negative is an improvement).
#[derive(Debug, Clone, Copy)]
pub struct QuboSwapNeighbor {
    /// Index of the first variable to flip.
    pub i: usize,
    /// Index of the second variable to flip.
    pub j: usize,
    /// Combined change in objective value when both variables are flipped.
    pub gain: Coefficient,
}

/// The swap law: on a consistent solution, flipping `i` and then `j` of
/// opposite values changes the energy by `gain[i] + gain[j] - Q[i][j]`.
pub proof fn lemma_swap_gain(q: Qubo, sol: QuboSolution, i: int, j: int)
    requires
        sol.consistent(q),
        0 <= i < q.dim(),
        0 <= j < q.dim(),
        sol.x@[i] != sol.x@[j],
    ensures
        q.energy(flip2(sol.x@, i, j)) == q.energy(sol.x@) + sol.gain@[i] + sol.gain@[j] - q.coef(i, j),
{
    q.lemma_wf();
    let x = sol.x@;
    let y = x.update(i, !x[i]);
    q.lemma_energy_flip(x, i);
    q.lemma_energy_flip(y, j);
    q.lemma_flip_gain_flip_other(x, i, j);
}

impl Qubo {
    /// The flip of variable `i`, with its gain read from `sol`.
    pub fn flip_move(sol: &QuboSolution, i: usize) -> (r: QuboFlipNeighbor)
        requires
            i < sol.gain@.len(),
        ensures
            r.i == i,
            r.gain == sol.gain@[i as int],
    {
        QuboFlipNeighbor { i, gain: sol.gain[i] }
    }
}

impl QuboSwapNeighbor {
    /// A swap counts as two iterations, one per flipped variable.
    pub fn apply_to_iteration(&self, iter: u64) -> (r: u64)
        requires
            iter <= u64::MAX - 2,
        ensures
            r == iter + 2,
    {
        iter + 2
    }

    /// Applies the swap as two flips: first `i`, then `j`, each with the gain
    /// the solution holds at that point. The result is consistent again.
    pub fn apply_to_solution(&self, prob: &Qubo, sol: &mut QuboSolution)
        requires
            old(sol).consistent(*prob),
            prob.fits_i32(),
            (self.i as int) < prob.dim(),
            (self.j as int) < prob.dim(),
        ensures
            final(sol).consistent(*prob),
            final(sol).x@ == flip2(old(sol).x@, self.i as int, self.j as int),
            final(sol).index().is_on() == old(sol).index().is_on(),
    {
        proof {
            QuboFlipNeighbor::lemma_fits(*prob, *sol, self.i as int);
        }
        let first = QuboFlipNeighbor { i: self.i, gain: sol.gain[self.i] };
        first.apply_to_solution(prob, sol);
        proof {
            QuboFlipNeighbor::lemma_fits(*prob, *sol, self.j as int);
        }
        let second = QuboFlipNeighbor { i: self.j, gain: sol.gain[self.j] };
        second.apply_to_solution(prob, sol);
    }

    /// All swaps of two variables `j < i` of opposite values, ordered by `i`
    /// and then by `j`, with gain `gain[i] + gain[j] - Q[i][j]`.
    #[verifier::rlimit(40)]
    pub fn iter(prob: &Qubo, sol: &QuboSolution) -> (r: Vec<QuboSwapNeighbor>)
        requires
            sol.consistent(*prob),
            prob.fits_i32(),
            pair_fits(*prob),
        ensures
            forall|k: int| 0 <= k < r@.len() ==> {
                let m = #[trigger] r@[k];
                &&& prob.vars().contains(m.i)
                &&& prob.vars().contains(m.j)
                &&& m.j < m.i
                &&& sol.x@[m.i as int] != sol.x@[m.j as int]
                &&& m.gain == sol.gain@[m.i as int] + sol.gain@[m.j as int] - prob.coef(m.i as int, m.j as int)
            },
            forall|i: usize, j: usize| prob.vars().contains(i) && prob.vars().contains(j) && j < i
                && sol.x@[i as int] != sol.x@[j as int] ==> exists|k: int| 0 <= k < r@.len()
                && (#[trigger] r@[k]).i == i && r@[k].j == j,
            forall|a: int, b: int| 0 <= a < b < r@.len() ==> (r@[a].i < r@[b].i
                || (r@[a].i == r@[b].i && r@[a].j < r@[b].j)),
    {
        proof {
            prob.lemma_wf();
        }
        let vars = prob.iter_on_variables();
        let mut r: Vec<QuboSwapNeighbor> = Vec::new();
        let mut a: usize = 0;
        while a < vars.len()
            invariant
                0 <= a <= vars@.len(),
                vars@ == prob.vars(),
                sol.consistent(*prob),
                prob.fits_i32(),
                pair_fits(*prob),
                forall|k: int| 0 <= k < vars@.len() ==> #[trigger] vars@[k] < prob.dim(),
                forall|p: int, q: int| 0 <= p < q < vars@.len() ==> vars@[p] < vars@[q],
                forall|k: int| 0 <= k < r@.len() ==> {
                    let m = #[trigger] r@[k];
                    &&& prob.vars().contains(m.i)
                    &&& prob.vars().contains(m.j)
                    &&& m.j < m.i
                    &&& m.i < (if a < vars@.len() { vars@[a as int] as int } else { prob.dim() as int })
                    &&& sol.x@[m.i as int] != sol.x@[m.j as int]
                    &&& m.gain == sol.gain@[m.i as int] + sol.gain@[m.j as int] - prob.coef(m.i as int, m.j as int)
                },
                forall|p: int, q: int| 0 <= p < a && 0 <= q < vars@.len() && vars@[q] < vars@[p]
                    && sol.x@[vars@[p] as int] != sol.x@[vars@[q] as int] ==> exists|k: int| 0 <= k < r@.len()
                    && (#[trigger] r@[k]).i == vars@[p] && r@[k].j == vars@[q],
                forall|p: int, q: int| 0 <= p < q < r@.len() ==> (r@[p].i < r@[q].i
                    || (r@[p].i == r@[q].i && r@[p].j < r@[q].j)),
            decreases vars@.len() - a,
        {
            let i = vars[a];
            let ghost r_start = r@.len();
            let mut b: usize = 0;
            while b < vars.len() && vars[b] < i
                invariant
                    0 <= b <= vars@.len(),
                    0 <= a < vars@.len(),
                    i == vars@[a as int],
                    vars@ == prob.vars(),
                    sol.consistent(*prob),
                    prob.fits_i32(),
                    pair_fits(*prob),
                    forall|k: int| 0 <= k < vars@.len() ==> #[trigger] vars@[k] < prob.dim(),
                    forall|p: int, q: int| 0 <= p < q < vars@.len() ==> vars@[p] < vars@[q],
                    forall|k: int| 0 <= k < b ==> #[trigger] vars@[k] < i,
                    r_start <= r@.len(),
                    forall|k: int| 0 <= k < r@.len() ==> {
                        let m = #[trigger] r@[k];
                        &&& prob.vars().contains(m.i)
                        &&& prob.vars().contains(m.j)
                        &&& m.j < m.i
                        &&& m.i <= i
                        &&& sol.x@[m.i as int] != sol.x@[m.j as int]
                        &&& m.gain == sol.gain@[m.i as int] + sol.gain@[m.j as int] - prob.coef(m.i as int, m.j as int)
                    },
                    forall|k: int| 0 <= k < r_start ==> (#[trigger] r@[k]).i < i,
                    forall|k: int| r_start <= k < r@.len() ==> (#[trigger] r@[k]).i == i,
                    forall|k: int| r_start <= k < r@.len() ==> b > 0 && (#[trigger] r@[k]).j <= vars@[b - 1],
                    forall|p: int, q: int| 0 <= p < a && 0 <= q < vars@.len() && vars@[q] < vars@[p]
                        && sol.x@[vars@[p] as int] != sol.x@[vars@[q] as int] ==> exists|k: int| 0 <= k < r@.len()
                        && (#[trigger] r@[k]).i == vars@[p] && r@[k].j == vars@[q],
                    forall|q: int| 0 <= q < b && sol.x@[i as int] != sol.x@[vars@[q] as int] ==> exists|k: int| 0 <= k < r@.len()
                        && (#[trigger] r@[k]).i == i && r@[k].j == vars@[q],
                    forall|p: int, q: int| 0 <= p < q < r@.len() ==> (r@[p].i < r@[q].i
                        || (r@[p].i == r@[q].i && r@[p].j < r@[q].j)),
                decreases vars@.len() - b,
            {
                let j = vars[b];
                if sol.x[i] != sol.x[j] {
                    proof {
                        assert(sol.gain@[i as int] == prob.flip_gain(sol.x@, i as int));
                        assert(sol.gain@[j as int] == prob.flip_gain(sol.x@, j as int));
                        assert(prob.vars()[a as int] == i);
                        assert(prob.vars()[b as int] == j);
                    }
                    let q = prob.get_q(i, j);
                    let g = sol.gain[i] + sol.gain[j] - q;
                    let ghost before = r@;
                    r.push(QuboSwapNeighbor { i, j, gain: g });
                    proof {
                        if b > 0 {
                            assert(vars@[b - 1] < vars@[b as int]);
                        }
                        assert forall|k: int| r_start <= k < r@.len() implies b + 1 > 0 && (#[trigger] r@[k]).j <= vars@[b as int] by {
                            if k < before.len() {
                                assert(r@[k] == before[k]);
                            }
                        }
                        assert forall|p: int, q2: int| 0 <= p < q2 < r@.len() implies (r@[p].i < r@[q2].i
                            || (r@[p].i == r@[q2].i && r@[p].j < r@[q2].j)) by {
                            if q2 < before.len() {
                                assert(r@[p] == before[p] && r@[q2] == before[q2]);
                            } else {
                                assert(r@[p] == before[p]);
                                if p >= r_start {
                                    assert(before[p].j <= vars@[b - 1]);
                                }
                            }
                        }
                        assert forall|q2: int| 0 <= q2 < b + 1 && sol.x@[i as int] != sol.x@[vars@[q2] as int] implies exists|k: int| 0 <= k < r@.len()
                            && (#[trigger] r@[k]).i == i && r@[k].j == vars@[q2] by {
                            if q2 == b {
                                assert(r@[r@.len() - 1].i == i && r@[r@.len() - 1].j == vars@[q2]);
                            } else {
                                let k = choose|k: int| 0 <= k < before.len() && (#[trigger] before[k]).i == i && before[k].j == vars@[q2];
                                assert(r@[k] == before[k]);
                            }
                        }
                        assert forall|p: int, q2: int| 0 <= p < a && 0 <= q2 < vars@.len() && vars@[q2] < vars@[p]
                            && sol.x@[vars@[p] as int] != sol.x@[vars@[q2] as int] implies exists|k: int| 0 <= k < r@.len()
                            && (#[trigger] r@[k]).i == vars@[p] && r@[k].j == vars@[q2] by {
                            let k = choose|k: int| 0 <= k < before.len() && (#[trigger] before[k]).i == vars@[p] && before[k].j == vars@[q2];
                            assert(r@[k] == before[k]);
                        }
                    }
                } else {
                    proof {
                        if b > 0 {
                            assert(vars@[b - 1] < vars@[b as int]);
                        }
                    }
                }
                b += 1;
            }
            proof {
                assert forall|q2: int| 0 <= q2 < vars@.len() && vars@[q2] < i implies q2 < b by {
                    if q2 >= b {
                        if b < vars@.len() {
                            assert(vars@[b as int] >= i);
                            if q2 > b {
                                assert(vars@[b as int] < vars@[q2]);
                            }
                        }
                    }
                }
                assert forall|k: int| 0 <= k < r@.len() implies
                    (#[trigger] r@[k]).i < (if a + 1 < vars@.len() { vars@[a + 1] as int } else { prob.dim() as int }) by {
                    if a + 1 < vars@.len() {
                        assert(vars@[a as int] < vars@[a + 1]);
                    }
                }
            }
            a += 1;
        }
        r
    }

    /// Whether applying the move to `src` gives a lower objective than `other`.
    pub fn move_to_be_better_than(&self, src: &QuboSolution, other: &QuboSolution) -> (r: bool)
        requires
            i32::MIN <= self.gain + src.objective <= i32::MAX,
        ensures
            r == (self.gain + src.objective < other.objective),
    {
        self.gain + src.objective < other.objective
    }
}

/// In a row with unique keys, the entry at `k` is what its key looks up.
proof fn lemma_lookup_at_key(row: Seq<(usize, i32)>, k: int)
    requires
        keys_unique(row),
        0 <= k < row.len(),
    ensures
        row_lookup(row, row[k].0 as int) == Some(row[k].1),
{
    crate::sparse_row::lemma_lookup_at(row, k);
}

} // verus!
