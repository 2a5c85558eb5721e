//! Assignments of a QUBO together with their cached energy and flip gains.

use vstd::prelude::*;
use crate::sums::{occurs, lemma_sum_to_zero};
use crate::gain_index::GainIndex;
use crate::qubo::{Qubo, Coefficient};

verus! {

/// A solution to the QUBO problem.
///
/// - `x` is the assignment (`x[i]` is variable `i`),
/// - `gain[i]` is the change in energy if variable `i` is flipped
///   (negative means flipping improves the objective),
/// - `objective` is the current energy (minimized).
///
/// An optional index of the variables with a negative gain can be enabled
/// with [`QuboSolution::enable_negative_gain_index`].
#[derive(Debug, Clone)]
pub struct QuboSolution {
    pub x: Vec<bool>,
    pub gain: Vec<Coefficient>,
    pub objective: Coefficient,
    pub negative_gain: GainIndex,
}

/// A copy of a vector of `Copy` values.
pub fn copy_vec<T: Copy>(v: &Vec<T>) -> (r: Vec<T>)
    ensures
        r@ == v@,
{
    let mut r: Vec<T> = Vec::new();
    let mut k: usize = 0;
    while k < v.len()
        invariant
            0 <= k <= v@.len(),
            r@ == v@.take(k as int),
        decreases v@.len() - k,
    {
        r.push(v[k]);
        k += 1;
        proof {
            assert(r@ =~= v@.take(k as int));
        }
    }
    proof {
        assert(v@.take(v@.len() as int) =~= v@);
    }
    r
}

/// A copy of a slice of `Copy` values as a vector.
pub fn copy_vec_slice<T: Copy>(v: &[T]) -> (r: Vec<T>)
    ensures
        r@ == v@,
{
    let mut r: Vec<T> = Vec::new();
    let mut k: usize = 0;
    while k < v.len()
        invariant
            0 <= k <= v@.len(),
            r@ == v@.take(k as int),
        decreases v@.len() - k,
    {
        r.push(v[k]);
        k += 1;
        proof {
            assert(r@ =~= v@.take(k as int));
        }
    }
    proof {
        assert(v@.take(v@.len() as int) =~= v@);
    }
    r
}

impl QuboSolution {
    /// The number of positions where the two solutions' `x` differ.
    pub fn distance(&self, other: &QuboSolution) -> (r: usize)
        ensures
            r == crate::sums::mismatches(self.x@, other.x@,
                if self.x@.len() < other.x@.len() { self.x@.len() as int } else { other.x@.len() as int }),
    {
        crate::sums::count_mismatches_bool(self.x.as_slice(), other.x.as_slice())
    }

    /// The negative-gain index.
    pub open spec fn index(self) -> GainIndex {
        self.negative_gain
    }

    /// The cached fields agree with the assignment: `objective` is its energy,
    /// `gain[i]` the flip gain of every variable below the dimension, and the
    /// index, when enabled, holds exactly the variables with a negative gain.
    pub open spec fn consistent(self, q: Qubo) -> bool {
        &&& q.wf()
        &&& self.x@.len() >= q.dim()
        &&& self.gain@.len() == q.dim()
        &&& self.objective as int == q.energy(self.x@)
        &&& forall|i: int| 0 <= i < q.dim() ==> #[trigger] self.gain@[i] as int == q.flip_gain(self.x@, i)
        &&& self.index().matches(self.gain@)
    }

    /// The range of variable indices of the solution, `0..x.len()`.
    pub fn iter_on_variables(&self) -> (r: std::ops::Range<usize>)
        ensures
            r.start == 0,
            r.end == self.x@.len(),
    {
        0..self.x.len()
    }

    /// Builds a [`QuboSolution`] from pre-computed components, with the
    /// negative-gain index disabled.
    pub fn new_from_parts(x: Vec<bool>, gain: Vec<Coefficient>, objective: Coefficient) -> (r: QuboSolution)
        ensures
            r.x == x,
            r.gain == gain,
            r.objective == objective,
            r.index().wf(),
            !r.index().is_on(),
            r.index().members().len() == 0,
    {
        QuboSolution { x, gain, objective, negative_gain: GainIndex::new() }
    }

    /// A copy of the solution, field by field.
    pub fn duplicate(&self) -> (r: QuboSolution)
        ensures
            r.x@ == self.x@,
            r.gain@ == self.gain@,
            r.objective == self.objective,
            r.index().is_on() == self.index().is_on(),
            r.index().members() == self.index().members(),
            r.index().capacity() == self.index().capacity(),
            self.index().wf() ==> r.index().wf(),
            forall|q: Qubo| self.consistent(q) ==> #[trigger] r.consistent(q),
    {
        QuboSolution {
            x: copy_vec(&self.x),
            gain: copy_vec(&self.gain),
            objective: self.objective,
            negative_gain: self.negative_gain.duplicate(),
        }
    }

    /// The negative-gain index.
    pub fn negative_gain(&self) -> (r: &GainIndex)
        ensures
            *r == self.index(),
    {
        &self.negative_gain
    }

    /// Creates a [`QuboSolution`] from an assignment, computing gain and
    /// objective.
    pub fn new_from_assignment(qubo: &Qubo, x: Vec<bool>) -> (r: QuboSolution)
        requires
            qubo.wf(),
            x@.len() >= qubo.dim(),
            i32::MIN <= qubo.energy(x@) <= i32::MAX,
            forall|i: int| 0 <= i < qubo.dim() ==> i32::MIN <= #[trigger] qubo.flip_gain(x@, i) <= i32::MAX,
        ensures
            r.consistent(*qubo),
            r.x@ == x@,
            !r.index().is_on(),
    {
        proof {
            qubo.lemma_wf();
        }
        let n = qubo.len();
        let mut gain: Vec<Coefficient> = vec![0; n];
        let vars = qubo.iter_on_variables();
        let mut t: usize = 0;
        while t < vars.len()
            invariant
                0 <= t <= vars@.len(),
                vars@ == qubo.vars(),
                qubo.wf(),
                forall|i: int| 0 <= i < qubo.dim() ==> i32::MIN <= #[trigger] qubo.flip_gain(x@, i) <= i32::MAX,
                n == qubo.dim(),
                x@.len() >= n,
                gain@.len() == n,
                forall|k: int| 0 <= k < vars@.len() ==> #[trigger] vars@[k] < n,
                forall|a: int, b: int| 0 <= a < b < vars@.len() ==> vars@[a] < vars@[b],
                forall|i: int| 0 <= i < n ==> #[trigger] gain@[i] as int == (
                    if exists|k: int| 0 <= k < t && vars@[k] as int == i { qubo.flip_gain(x@, i) } else { 0 }),
            decreases vars@.len() - t,
        {
            let i = vars[t];
            let g = qubo.calculate_gain(x.as_slice(), i);
            gain.set(i, g);
            proof {
                assert forall|v: int| 0 <= v < n implies #[trigger] gain@[v] as int == (
                    if exists|k: int| 0 <= k < t + 1 && vars@[k] as int == v { qubo.flip_gain(x@, v) } else { 0 }) by {
                    if v == i as int {
                        assert(vars@[t as int] as int == v);
                    } else if exists|k: int| 0 <= k < t + 1 && vars@[k] as int == v {
                        let k = choose|k: int| 0 <= k < t + 1 && vars@[k] as int == v;
                        assert(k != t);
                    }
                }
            }
            t += 1;
        }
        proof {
            assert forall|i: int| 0 <= i < n implies #[trigger] gain@[i] as int == qubo.flip_gain(x@, i) by {
                if !(exists|k: int| 0 <= k < vars@.len() && vars@[k] as int == i) {
                    assert(!occurs(qubo.vars(), i));
                    qubo.lemma_nonvar_zero(i);
                    assert forall|j: int| 0 <= j < n implies #[trigger] qubo.field_term(x@, i, j) == 0 by {
                        assert(qubo.entry(i, j) is None);
                    }
                    lemma_sum_to_zero(|j: int| qubo.field_term(x@, i, j), n as int);
                }
            }
        }
        let objective = qubo.calculate_energy(x.as_slice());
        let r = QuboSolution::new_from_parts(x, gain, objective);
        proof {
            assert(r.index().matches(r.gain@));
        }
        r
    }

    /// Enables the negative-gain index, building it from the current `gain`.
    /// A no-op when it is already enabled. Either way, an index that was off
    /// or already kept in step with `gain` afterwards holds exactly the
    /// variables whose gain is negative.
    pub fn enable_negative_gain_index(&mut self)
        requires
            old(self).index().wf(),
            old(self).gain@.len() < usize::MAX,
        ensures
            final(self).x == old(self).x,
            final(self).gain == old(self).gain,
            final(self).objective == old(self).objective,
            final(self).index().is_on(),
            old(self).index().is_on() ==> final(self).index() == old(self).index(),
            !old(self).index().is_on() ==> final(self).index().matches(final(self).gain@),
            old(self).index().matches(old(self).gain@) ==> final(self).index().matches(final(self).gain@),
            !old(self).index().is_on() ==> forall|a: int, b: int| 0 <= a < b < final(self).index().members().len()
                ==> final(self).index().members()[a] < final(self).index().members()[b],
    {
        self.negative_gain.enable(self.gain.as_slice());
    }

    /// Records that variable `v`'s gain is changing from `gain[v]` to
    /// `new_gain`, updating `v`'s membership in the negative-gain index (it
    /// does not write `gain[v]`). A no-op when the index is disabled.
    pub fn update_negative_gain_membership(&mut self, v: usize, new_gain: Coefficient)
        requires
            old(self).index().matches(old(self).gain@),
            v < old(self).gain@.len(),
        ensures
            final(self).x == old(self).x,
            final(self).gain == old(self).gain,
            final(self).objective == old(self).objective,
            final(self).index().wf(),
            final(self).index().is_on() == old(self).index().is_on(),
            final(self).index().capacity() == old(self).index().capacity(),
            !old(self).index().is_on() ==> final(self).index() == old(self).index(),
            old(self).index().is_on() ==> forall|w: int| #[trigger] final(self).index().has(w)
                == (if w == v as int { new_gain < 0 } else { old(self).index().has(w) }),
    {
        let was = self.gain[v] < 0;
        self.negative_gain.update(v, was, new_gain < 0);
    }
}

} // verus!
