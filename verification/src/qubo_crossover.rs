//! Recombination of QUBO solutions: uniform crossover, random solutions, and
//! the sub-problem on the variables where two parents disagree.

use vstd::prelude::*;
use rand::rngs::SmallRng;
use crate::rng::{coin, half_chance};
use crate::sorted::strictly_sorted;
use crate::qubo::Qubo;
use crate::qubo_solution::QuboSolution;
use crate::qubo_moves::QuboFlipNeighbor;
use crate::qubo_sub::{assignments, make_sub_problem_from};

verus! {

/// Variable `v` is the `t`-th variable of the problem and `picks[t]` holds.
pub open spec fn picked(vars: Seq<usize>, picks: Seq<bool>, v: int) -> bool {
    exists|t: int| #![trigger vars[t], picks[t]] 0 <= t < vars.len() && t < picks.len() && vars[t] as int == v && picks[t]
}

/// The child of a uniform crossover: `x2[v]` for every picked variable,
/// `x1[v]` elsewhere.
pub open spec fn uniform_child(vars: Seq<usize>, picks: Seq<bool>, x1: Seq<bool>, x2: Seq<bool>) -> Seq<bool> {
    Seq::new(x1.len(), |v: int| if picked(vars, picks, v) { x2[v] } else { x1[v] })
}

/// The assignments of two parents, first and second.
pub open spec fn two_parents(x1: Seq<bool>, x2: Seq<bool>) -> Seq<Seq<bool>> {
    seq![x1, x2]
}

/// Uniform crossover for QUBO: each variable takes its value from the first
/// or the second parent with equal probability.
#[derive(Debug, Clone, Copy)]
pub struct QuboUniformCrossover;

impl QuboUniformCrossover {
    /// The child that takes, for the `t`-th variable of the problem, the
    /// value of `sol2` when `picks[t]` holds and that of `sol1` otherwise,
    /// built from `sol1` by flip moves so that its gains stay consistent.
    pub fn crossover_with(prob: &Qubo, sol1: &QuboSolution, sol2: &QuboSolution, picks: &[bool]) -> (r: QuboSolution)
        requires
            sol1.consistent(*prob),
            prob.fits_i32(),
            sol2.x@.len() >= prob.dim(),
            picks@.len() == prob.vars().len(),
        ensures
            r.consistent(*prob),
            r.x@ == uniform_child(prob.vars(), picks@, sol1.x@, sol2.x@),
            r.index().is_on() == sol1.index().is_on(),
    {
        proof {
            prob.lemma_wf();
        }
        let vars = prob.iter_on_variables();
        let mut sol = sol1.duplicate();
        let mut t: usize = 0;
        while t < vars.len()
            invariant
                0 <= t <= vars@.len(),
                vars@ == prob.vars(),
                picks@.len() == vars@.len(),
                strictly_sorted(vars@),
                forall|k: int| 0 <= k < vars@.len() ==> #[trigger] vars@[k] < prob.dim(),
                prob.fits_i32(),
                sol.consistent(*prob),
                sol2.x@.len() >= prob.dim(),
                sol.x@.len() == sol1.x@.len(),
                sol.index().is_on() == sol1.index().is_on(),
                forall|v: int| 0 <= v < sol1.x@.len() ==> #[trigger] sol.x@[v] == (
                    if picked(vars@.take(t as int), picks@, v) { sol2.x@[v] } else { sol1.x@[v] }),
            decreases vars@.len() - t,
        {
            let i = vars[t];
            let ghost before = sol.x@;
            proof {
                assert(!picked(vars@.take(t as int), picks@, i as int)) by {
                    if picked(vars@.take(t as int), picks@, i as int) {
                        let s = choose|s: int| #![trigger vars@.take(t as int)[s], picks@[s]] 0 <= s < t && s < picks@.len()
                            && vars@.take(t as int)[s] as int == i as int && picks@[s];
                        assert(vars@[s] < vars@[t as int]);
                    }
                }
            }
            if sol.x[i] != sol2.x[i] && picks[t] {
                proof {
                    QuboFlipNeighbor::lemma_fits(*prob, sol, i as int);
                }
                let mv = QuboFlipNeighbor { i, gain: sol.gain[i] };
                mv.apply_to_solution(prob, &mut sol);
            }
            proof {
                assert forall|v: int| 0 <= v < sol1.x@.len() implies #[trigger] sol.x@[v] == (
                    if picked(vars@.take(t as int + 1), picks@, v) { sol2.x@[v] } else { sol1.x@[v] }) by {
                    if v == i as int {
                        if picks@[t as int] {
                            assert(vars@.take(t as int + 1)[t as int] == i);
                            assert(picked(vars@.take(t as int + 1), picks@, v));
                        } else {
                            assert(!picked(vars@.take(t as int + 1), picks@, v)) by {
                                if picked(vars@.take(t as int + 1), picks@, v) {
                                    let s = choose|s: int| #![trigger vars@.take(t as int + 1)[s], picks@[s]] 0 <= s < t + 1 && s < picks@.len()
                                        && vars@.take(t as int + 1)[s] as int == v && picks@[s];
                                    if s < t {
                                        assert(vars@[s] < vars@[t as int]);
                                    }
                                }
                            }
                        }
                    } else {
                        assert(sol.x@[v] == before[v]);
                        if picked(vars@.take(t as int + 1), picks@, v) {
                            let s = choose|s: int| #![trigger vars@.take(t as int + 1)[s], picks@[s]] 0 <= s < t + 1 && s < picks@.len()
                                && vars@.take(t as int + 1)[s] as int == v && picks@[s];
                            assert(s < t);
                            assert(vars@.take(t as int)[s] == vars@.take(t as int + 1)[s]);
                            assert(picked(vars@.take(t as int), picks@, v));
                        }
                        if picked(vars@.take(t as int), picks@, v) {
                            let s = choose|s: int| #![trigger vars@.take(t as int)[s], picks@[s]] 0 <= s < t && s < picks@.len()
                                && vars@.take(t as int)[s] as int == v && picks@[s];
                            assert(vars@.take(t as int)[s] == vars@.take(t as int + 1)[s]);
                        }
                    }
                }
            }
            t += 1;
        }
        proof {
            assert(vars@.take(vars@.len() as int) =~= vars@);
            assert(sol.x@ =~= uniform_child(prob.vars(), picks@, sol1.x@, sol2.x@));
        }
        sol
    }

    /// Uniform crossover: for each variable of the problem on which the
    /// parents differ, a fair coin decides whether the child takes the value
    /// of `sol2`; otherwise the child keeps the value of `sol1`.
    pub fn crossover(&mut self, prob: &Qubo, sol1: &QuboSolution, sol2: &QuboSolution, rng: &mut SmallRng) -> (r: QuboSolution)
        requires
            sol1.consistent(*prob),
            prob.fits_i32(),
            sol2.x@.len() >= prob.dim(),
        ensures
            r.consistent(*prob),
            r.x@.len() == sol1.x@.len(),
            forall|v: int| 0 <= v < r.x@.len() ==> #[trigger] r.x@[v] == sol1.x@[v] || r.x@[v] == sol2.x@[v],
            forall|v: int| 0 <= v < r.x@.len() && !prob.vars().contains(v as usize) ==> #[trigger] r.x@[v] == sol1.x@[v],
    {
        proof {
            prob.lemma_wf();
        }
        let vars = prob.iter_on_variables();
        let mut picks: Vec<bool> = Vec::new();
        let mut t: usize = 0;
        while t < vars.len()
            invariant
                0 <= t <= vars@.len(),
                picks@.len() == t,
                vars@ == prob.vars(),
                forall|k: int| 0 <= k < vars@.len() ==> #[trigger] vars@[k] < prob.dim(),
                sol1.x@.len() >= prob.dim(),
                sol2.x@.len() >= prob.dim(),
            decreases vars@.len() - t,
        {
            let i = vars[t];
            if sol1.x[i] != sol2.x[i] {
                let b = coin(rng);
                picks.push(b);
            } else {
                picks.push(false);
            }
            t += 1;
        }
        let r = Self::crossover_with(prob, sol1, sol2, picks.as_slice());
        proof {
            assert forall|v: int| 0 <= v < r.x@.len() && !prob.vars().contains(v as usize) implies #[trigger] r.x@[v] == sol1.x@[v] by {
                if picked(prob.vars(), picks@, v) {
                    let s = choose|s: int| #![trigger prob.vars()[s], picks@[s]] 0 <= s < prob.vars().len() && s < picks@.len()
                        && prob.vars()[s] as int == v && picks@[s];
                    assert(prob.vars().contains(prob.vars()[s]));
                }
            }
        }
        r
    }
}

impl Qubo {
    /// A random solution: every variable of the problem is set by a fair
    /// coin, every other index below the dimension is `false`.
    pub fn new_solution(&self, rng: &mut SmallRng) -> (r: QuboSolution)
        requires
            self.wf(),
            self.fits_i32(),
        ensures
            r.consistent(*self),
            r.x@.len() == self.dim(),
            forall|v: int| 0 <= v < self.dim() && !self.vars().contains(v as usize) ==> !#[trigger] r.x@[v],
    {
        proof {
            self.lemma_wf();
        }
        let n = self.len();
        let mut x: Vec<bool> = Vec::new();
        let mut m: usize = 0;
        while m < n
            invariant
                0 <= m <= n,
                x@.len() == m,
                forall|v: int| 0 <= v < m ==> !#[trigger] x@[v],
            decreases n - m,
        {
            x.push(false);
            m += 1;
        }
        let vars = self.iter_on_variables();
        let mut t: usize = 0;
        while t < vars.len()
            invariant
                0 <= t <= vars@.len(),
                vars@ == self.vars(),
                n == self.dim(),
                x@.len() == n,
                forall|k: int| 0 <= k < vars@.len() ==> #[trigger] vars@[k] < n,
                forall|v: int| 0 <= v < n && !self.vars().contains(v as usize) ==> !#[trigger] x@[v],
            decreases vars@.len() - t,
        {
            let i = vars[t];
            let b = half_chance(rng);
            proof {
                assert(self.vars().contains(i));
            }
            x.set(i, b);
            t += 1;
        }
        proof {
            self.lemma_fits_i32_bounds(x@);
        }
        QuboSolution::new_from_assignment(self, x)
    }

    /// The sub-problem on the variables where `sol1` and `sol2` differ, with
    /// the fixed variables folded in from `sol1`
    /// (see [`make_sub_problem_from`]).
    pub fn extract_sub_problem(&self, sol1: &QuboSolution, sol2: &QuboSolution) -> (r: Qubo)
        requires
            self.wf(),
            self.folds_fit(two_parents(sol1.x@, sol2.x@)),
            sol1.x@.len() >= self.dim(),
            sol2.x@.len() >= self.dim(),
        ensures
            r.wf(),
            forall|a: int, b: int| #[trigger] r.entry(a, b) == self.sub_entry(two_parents(sol1.x@, sol2.x@), a, b),
            forall|a: usize| #[trigger] r.vars().contains(a) <==> exists|b: int| #[trigger] self.sub_entry(two_parents(sol1.x@, sol2.x@), a as int, b) is Some,
    {
        proof {
            self.lemma_wf();
        }
        let parents: [&QuboSolution; 2] = [sol1, sol2];
        proof {
            assert(assignments(parents@) =~= two_parents(sol1.x@, sol2.x@));
        }
        let r = make_sub_problem_from(self, parents.as_slice());
        r
    }

    /// Lifts a solution of the sub-problem back: every variable below the
    /// length of `sub_solution` takes its value there, the others keep
    /// `sol1`'s, and the gains are kept consistent by flip moves.
    pub fn lift_solution(&self, sol1: &QuboSolution, sol2: &QuboSolution, sub_solution: &QuboSolution) -> (r: QuboSolution)
        requires
            sol1.consistent(*self),
            self.fits_i32(),
            sub_solution.x@.len() <= self.dim(),
        ensures
            r.consistent(*self),
            r.x@.len() == sol1.x@.len(),
            forall|v: int| 0 <= v < r.x@.len() ==> #[trigger] r.x@[v] == (
                if v < sub_solution.x@.len() { sub_solution.x@[v] } else { sol1.x@[v] }),
    {
        let mut sol = sol1.duplicate();
        let len = sub_solution.x.len();
        let mut i: usize = 0;
        while i < len
            invariant
                0 <= i <= len,
                len == sub_solution.x@.len(),
                len <= self.dim(),
                self.fits_i32(),
                sol.consistent(*self),
                sol.x@.len() == sol1.x@.len(),
                forall|v: int| 0 <= v < sol1.x@.len() ==> #[trigger] sol.x@[v] == (
                    if v < i { sub_solution.x@[v] } else { sol1.x@[v] }),
            decreases len - i,
        {
            if sol.x[i] != sub_solution.x[i] {
                proof {
                    QuboFlipNeighbor::lemma_fits(*self, sol, i as int);
                }
                let mv = QuboFlipNeighbor { i, gain: sol.gain[i] };
                mv.apply_to_solution(self, &mut sol);
            }
            i += 1;
        }
        sol
    }
}

} // verus!
