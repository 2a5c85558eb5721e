//! Local moves on a job-shop operation sequence: swapping two adjacent
//! operations and relocating one operation, each re-decoded to its exact
//! makespan.

use vstd::prelude::*;
use crate::job_shop::{JobShopScheduling, JobShopSolution, DecodeError, lemma_valid_by_multiset};
use crate::qubo_solution::copy_vec;

verus! {

/// `s` with positions `i` and `i + 1` exchanged.
pub open spec fn swap_adj(s: Seq<usize>, i: int) -> Seq<usize> {
    s.update(i, s[i + 1]).update(i + 1, s[i])
}

/// `s` with the entry at `from` removed and re-inserted at `to` (counted
/// after the removal).
pub open spec fn relocated(s: Seq<usize>, from: int, to: int) -> Seq<usize> {
    s.remove(from).insert(to, s[from])
}

/// Inserting an entry adds it to the multiset.
proof fn lemma_insert_multiset(t: Seq<usize>, k: int, x: usize)
    requires
        0 <= k <= t.len(),
    ensures
        t.insert(k, x).to_multiset() == t.to_multiset().insert(x),
{
    let u = t.insert(k, x);
    u.to_multiset_ensures();
    assert(u.remove(k) =~= t);
    assert(u[k] == x);
    assert(u.to_multiset() =~= t.to_multiset().insert(x));
}

/// Relocating an entry keeps the multiset, hence validity.
proof fn lemma_relocated_valid(prob: JobShopScheduling, s: Seq<usize>, from: int, to: int)
    requires
        0 <= from < s.len(),
        0 <= to < s.len(),
    ensures
        relocated(s, from, to).to_multiset() == s.to_multiset(),
        prob.valid_ops(relocated(s, from, to)) == prob.valid_ops(s),
        relocated(s, from, to).len() == s.len(),
{
    s.to_multiset_ensures();
    lemma_insert_multiset(s.remove(from), to, s[from]);
    assert(s.to_multiset().remove(s[from]).insert(s[from]) =~= s.to_multiset());
    lemma_valid_by_multiset(prob, relocated(s, from, to), s);
}

/// An adjacent swap is a relocation, so it keeps validity too.
proof fn lemma_swap_valid(prob: JobShopScheduling, s: Seq<usize>, i: int)
    requires
        0 <= i < s.len() - 1,
    ensures
        swap_adj(s, i) == relocated(s, i, i + 1),
        prob.valid_ops(swap_adj(s, i)) == prob.valid_ops(s),
        swap_adj(s, i).len() == s.len(),
{
    assert(swap_adj(s, i) =~= relocated(s, i, i + 1));
    lemma_relocated_valid(prob, s, i, i + 1);
}

/// Decodes `sol.operations` into `sol`'s makespan and completion times;
/// on failure `sol` keeps them.
fn redecode(prob: &JobShopScheduling, sol: &mut JobShopSolution) -> (r: Result<(), DecodeError>)
    requires
        prob.wf(),
        prob.n_jobs * prob.n_machines <= usize::MAX,
        prob.spans_fit(old(sol).operations@),
    ensures
        final(sol).operations == old(sol).operations,
        r is Ok <==> prob.valid_ops(old(sol).operations@),
        r is Ok ==> final(sol).objective as int == prob.makespan(old(sol).operations@)
            && final(sol).completion_times@.len() == old(sol).operations@.len()
            && forall|k: int| 0 <= k < final(sol).completion_times@.len() ==>
                #[trigger] final(sol).completion_times@[k] as int == prob.sched(old(sol).operations@).2[k],
        r is Err ==> final(sol).objective == old(sol).objective && final(sol).completion_times == old(sol).completion_times,
{
    match prob.decode(sol.operations.as_slice()) {
        Ok((makespan, completions)) => {
            sol.objective = makespan;
            sol.completion_times = completions;
            Ok(())
        },
        Err(e) => Err(e),
    }
}

/// Exchanges the operations at positions `i` and `i + 1`; `gain` is the
/// change in makespan (negative is an improvement).
#[derive(Debug, Clone, Copy)]
pub struct JobShopSwapNeighbor {
    pub i: usize,
    pub gain: i64,
}

impl JobShopSwapNeighbor {
    /// Swaps the two operations and re-decodes the schedule. It fails, with
    /// the sequence swapped and the schedule kept, exactly when the
    /// sequence is not valid.
    pub fn apply_to_solution(&self, prob: &JobShopScheduling, sol: &mut JobShopSolution) -> (r: Result<(), DecodeError>)
        requires
            prob.wf(),
            prob.n_jobs * prob.n_machines <= usize::MAX,
            prob.spans_fit(swap_adj(old(sol).operations@, self.i as int)),
            self.i + 1 < old(sol).operations@.len(),
        ensures
            final(sol).operations@ == swap_adj(old(sol).operations@, self.i as int),
            r is Ok <==> prob.valid_ops(old(sol).operations@),
            r is Ok ==> final(sol).objective as int == prob.makespan(final(sol).operations@)
                && final(sol).completion_times@.len() == final(sol).operations@.len()
                && forall|k: int| 0 <= k < final(sol).completion_times@.len() ==>
                    #[trigger] final(sol).completion_times@[k] as int == prob.sched(final(sol).operations@).2[k],
            r is Err ==> final(sol).objective == old(sol).objective && final(sol).completion_times == old(sol).completion_times,
    {
        proof {
            lemma_swap_valid(*prob, old(sol).operations@, self.i as int);
        }
        let n = sol.operations.len();
        proof {
            assert(self.i + 1 < n);
        }
        let a = sol.operations[self.i];
        let b = sol.operations[self.i + 1];
        sol.operations.set(self.i, b);
        sol.operations.set(self.i + 1, a);
        proof {
            assert(sol.operations@ =~= swap_adj(old(sol).operations@, self.i as int));
        }
        redecode(prob, sol)
    }

    /// Every swap of two adjacent operations of different jobs, by
    /// position, with its exact gain over `sol.objective`.
    pub fn iter(prob: &JobShopScheduling, sol: &JobShopSolution) -> (r: Vec<JobShopSwapNeighbor>)
        requires
            prob.wf(),
            prob.n_jobs * prob.n_machines <= usize::MAX,
            forall|i: int| 0 <= i && i + 1 < sol.operations@.len() ==> prob.spans_fit(#[trigger] swap_adj(sol.operations@, i)),
            prob.valid_ops(sol.operations@),
        ensures
            forall|k: int| 0 <= k < r@.len() ==> {
                let i = (#[trigger] r@[k]).i as int;
                &&& i + 1 < sol.operations@.len()
                &&& sol.operations@[i] != sol.operations@[i + 1]
                &&& r@[k].gain == prob.makespan(swap_adj(sol.operations@, i)) - sol.objective
            },
            forall|k1: int, k2: int| 0 <= k1 < k2 < r@.len() ==> (#[trigger] r@[k1]).i < (#[trigger] r@[k2]).i,
            forall|i: int| #![trigger sol.operations@[i]] 0 <= i && i + 1 < sol.operations@.len() && sol.operations@[i] != sol.operations@[i + 1] ==>
                exists|k: int| 0 <= k < r@.len() && (#[trigger] r@[k]).i == i,
    {
        let n = sol.operations.len();
        let mut items: Vec<JobShopSwapNeighbor> = Vec::new();
        if n < 2 {
            return items;
        }
        let base = sol.objective;
        let mut i: usize = 0;
        while i < n - 1
            invariant
                prob.wf(),
                prob.n_jobs * prob.n_machines <= usize::MAX,
                forall|ii: int| 0 <= ii && ii + 1 < sol.operations@.len() ==> prob.spans_fit(#[trigger] swap_adj(sol.operations@, ii)),
                prob.valid_ops(sol.operations@),
                n == sol.operations@.len(),
                n >= 2,
                base == sol.objective,
                i <= n - 1,
                forall|k: int| 0 <= k < items@.len() ==> {
                    let ii = (#[trigger] items@[k]).i as int;
                    &&& ii < i
                    &&& ii + 1 < sol.operations@.len()
                    &&& sol.operations@[ii] != sol.operations@[ii + 1]
                    &&& items@[k].gain == prob.makespan(swap_adj(sol.operations@, ii)) - sol.objective
                },
                forall|k1: int, k2: int| 0 <= k1 < k2 < items@.len() ==> (#[trigger] items@[k1]).i < (#[trigger] items@[k2]).i,
                forall|ii: int| #![trigger sol.operations@[ii]] 0 <= ii < i && sol.operations@[ii] != sol.operations@[ii + 1] ==>
                    exists|k: int| 0 <= k < items@.len() && (#[trigger] items@[k]).i == ii,
            decreases n - 1 - i,
        {
            if sol.operations[i] != sol.operations[i + 1] {
                let mut tentative = copy_vec(&sol.operations);
                let a = tentative[i];
                let b = tentative[i + 1];
                tentative.set(i, b);
                tentative.set(i + 1, a);
                proof {
                    assert(tentative@ =~= swap_adj(sol.operations@, i as int));
                    lemma_swap_valid(*prob, sol.operations@, i as int);
                }
                let makespan = match prob.compute_makespan(tentative.as_slice()) {
                    Ok(m) => m,
                    Err(_) => {
                        proof {
                            assert(false);
                        }
                        0
                    },
                };
                let gain = makespan as i64 - base as i64;
                let ghost before = items@;
                items.push(JobShopSwapNeighbor { i, gain });
                proof {
                    assert forall|ii: int| #![trigger sol.operations@[ii]] 0 <= ii < i + 1 && sol.operations@[ii] != sol.operations@[ii + 1] implies
                        exists|k: int| 0 <= k < items@.len() && (#[trigger] items@[k]).i == ii by {
                        if ii < i {
                            let k = choose|k: int| 0 <= k < before.len() && (#[trigger] before[k]).i == ii;
                            assert(items@[k] == before[k]);
                        } else {
                            assert(items@[before.len() as int].i == ii);
                        }
                    }
                }
            }
            i += 1;
        }
        items
    }

    /// Whether the swap applied to `src` gives a valid sequence with a
    /// smaller makespan than `other`'s.
    pub fn move_to_be_better_than(&self, prob: &JobShopScheduling, src: &JobShopSolution, other: &JobShopSolution) -> (r: bool)
        requires
            prob.wf(),
            prob.n_jobs * prob.n_machines <= usize::MAX,
            prob.spans_fit(swap_adj(src.operations@, self.i as int)),
            self.i + 1 < src.operations@.len(),
        ensures
            r == (prob.valid_ops(swap_adj(src.operations@, self.i as int))
                && prob.makespan(swap_adj(src.operations@, self.i as int)) < other.objective),
    {
        let mut ops = copy_vec(&src.operations);
        let n = ops.len();
        proof {
            assert(self.i + 1 < n);
        }
        let a = ops[self.i];
        let b = ops[self.i + 1];
        ops.set(self.i, b);
        ops.set(self.i + 1, a);
        proof {
            assert(ops@ =~= swap_adj(src.operations@, self.i as int));
        }
        match prob.compute_makespan(ops.as_slice()) {
            Ok(makespan) => makespan < other.objective,
            Err(_) => false,
        }
    }
}

/// Moves the operation at `from` to position `to` (counted after the
/// removal); `gain` is the change in makespan.
#[derive(Debug, Clone, Copy)]
pub struct JobShopRelocateNeighbor {
    pub from: usize,
    pub to: usize,
    pub gain: i64,
}

/// Removes the entry at `from` and re-inserts it at `to`.
fn relocate_in_place(operations: &mut Vec<usize>, from: usize, to: usize)
    requires
        from < old(operations)@.len(),
        to < old(operations)@.len(),
    ensures
        final(operations)@ == relocated(old(operations)@, from as int, to as int),
{
    let job = operations.remove(from);
    operations.insert(to, job);
}

/// Some move of `r` relocates from `f` to `t`.
pub open spec fn has_relocation(r: Seq<JobShopRelocateNeighbor>, f: int, t: int) -> bool {
    exists|k: int| 0 <= k < r.len() && r[k].from == f && r[k].to == t
}

/// `(a0, a1)` comes before `(b0, b1)` in lexicographic order.
pub open spec fn lex_lt(a0: int, a1: int, b0: int, b1: int) -> bool {
    a0 < b0 || (a0 == b0 && a1 < b1)
}

impl JobShopRelocateNeighbor {
    /// Relocates the operation and re-decodes the schedule. It fails, with
    /// the sequence changed and the schedule kept, exactly when the
    /// sequence is not valid.
    pub fn apply_to_solution(&self, prob: &JobShopScheduling, sol: &mut JobShopSolution) -> (r: Result<(), DecodeError>)
        requires
            prob.wf(),
            prob.n_jobs * prob.n_machines <= usize::MAX,
            prob.spans_fit(relocated(old(sol).operations@, self.from as int, self.to as int)),
            self.from < old(sol).operations@.len(),
            self.to < old(sol).operations@.len(),
        ensures
            final(sol).operations@ == relocated(old(sol).operations@, self.from as int, self.to as int),
            r is Ok <==> prob.valid_ops(old(sol).operations@),
            r is Ok ==> final(sol).objective as int == prob.makespan(final(sol).operations@)
                && final(sol).completion_times@.len() == final(sol).operations@.len()
                && forall|k: int| 0 <= k < final(sol).completion_times@.len() ==>
                    #[trigger] final(sol).completion_times@[k] as int == prob.sched(final(sol).operations@).2[k],
            r is Err ==> final(sol).objective == old(sol).objective && final(sol).completion_times == old(sol).completion_times,
    {
        proof {
            lemma_relocated_valid(*prob, old(sol).operations@, self.from as int, self.to as int);
        }
        relocate_in_place(&mut sol.operations, self.from, self.to);
        redecode(prob, sol)
    }

    /// Every relocation `from != to`, ordered by `from` and then `to`, with
    /// its exact gain over `sol.objective`.
    pub fn iter(prob: &JobShopScheduling, sol: &JobShopSolution) -> (r: Vec<JobShopRelocateNeighbor>)
        requires
            prob.wf(),
            prob.n_jobs * prob.n_machines <= usize::MAX,
            forall|f: int, t: int| 0 <= f < sol.operations@.len() && 0 <= t < sol.operations@.len() ==> prob.spans_fit(#[trigger] relocated(sol.operations@, f, t)),
            prob.valid_ops(sol.operations@),
        ensures
            forall|k: int| 0 <= k < r@.len() ==> {
                let m = #[trigger] r@[k];
                &&& m.from < sol.operations@.len() && m.to < sol.operations@.len() && m.from != m.to
                &&& m.gain == prob.makespan(relocated(sol.operations@, m.from as int, m.to as int)) - sol.objective
            },
            forall|k1: int, k2: int| 0 <= k1 < k2 < r@.len() ==>
                lex_lt((#[trigger] r@[k1]).from as int, r@[k1].to as int, (#[trigger] r@[k2]).from as int, r@[k2].to as int),
            forall|f: int, t: int| 0 <= f < sol.operations@.len() && 0 <= t < sol.operations@.len() && f != t ==>
                #[trigger] has_relocation(r@, f, t),
    {
        let n = sol.operations.len();
        let base = sol.objective;
        let mut items: Vec<JobShopRelocateNeighbor> = Vec::new();
        let mut from: usize = 0;
        while from < n
            invariant
                prob.wf(),
                prob.n_jobs * prob.n_machines <= usize::MAX,
                forall|f: int, t: int| 0 <= f < sol.operations@.len() && 0 <= t < sol.operations@.len() ==> prob.spans_fit(#[trigger] relocated(sol.operations@, f, t)),
                prob.valid_ops(sol.operations@),
                n == sol.operations@.len(),
                base == sol.objective,
                from <= n,
                forall|k: int| 0 <= k < items@.len() ==> {
                    let m = #[trigger] items@[k];
                    &&& m.from < from && m.to < n && m.from != m.to
                    &&& m.gain == prob.makespan(relocated(sol.operations@, m.from as int, m.to as int)) - sol.objective
                },
                forall|k1: int, k2: int| 0 <= k1 < k2 < items@.len() ==>
                    lex_lt((#[trigger] items@[k1]).from as int, items@[k1].to as int, (#[trigger] items@[k2]).from as int, items@[k2].to as int),
                forall|f: int, t: int| 0 <= f < from && 0 <= t < n && f != t ==> #[trigger] has_relocation(items@, f, t),
            decreases n - from,
        {
            let mut to: usize = 0;
            while to < n
                invariant
                    prob.wf(),
                    prob.n_jobs * prob.n_machines <= usize::MAX,
                    forall|f: int, t: int| 0 <= f < sol.operations@.len() && 0 <= t < sol.operations@.len() ==> prob.spans_fit(#[trigger] relocated(sol.operations@, f, t)),
                    prob.valid_ops(sol.operations@),
                    n == sol.operations@.len(),
                    base == sol.objective,
                    from < n,
                    to <= n,
                    forall|k: int| 0 <= k < items@.len() ==> {
                        let m = #[trigger] items@[k];
                        &&& lex_lt(m.from as int, m.to as int, from as int, to as int) && m.to < n && m.from != m.to
                        &&& m.gain == prob.makespan(relocated(sol.operations@, m.from as int, m.to as int)) - sol.objective
                    },
                    forall|k1: int, k2: int| 0 <= k1 < k2 < items@.len() ==>
                        lex_lt((#[trigger] items@[k1]).from as int, items@[k1].to as int, (#[trigger] items@[k2]).from as int, items@[k2].to as int),
                    forall|f: int, t: int| 0 <= t < n && f != t && lex_lt(f, t, from as int, to as int) && 0 <= f ==>
                        #[trigger] has_relocation(items@, f, t),
                decreases n - to,
            {
                if to != from {
                    let mut tentative = copy_vec(&sol.operations);
                    relocate_in_place(&mut tentative, from, to);
                    proof {
                        lemma_relocated_valid(*prob, sol.operations@, from as int, to as int);
                    }
                    let makespan = match prob.compute_makespan(tentative.as_slice()) {
                        Ok(m) => m,
                        Err(_) => {
                            proof {
                                assert(false);
                            }
                            0
                        },
                    };
                    let gain = makespan as i64 - base as i64;
                    let ghost before = items@;
                    items.push(JobShopRelocateNeighbor { from, to, gain });
                    proof {
                        assert forall|f: int, t: int| 0 <= t < n && f != t && lex_lt(f, t, from as int, to + 1) && 0 <= f implies
                            #[trigger] has_relocation(items@, f, t) by {
                            if lex_lt(f, t, from as int, to as int) {
                                assert(has_relocation(before, f, t));
                                let k = choose|k: int| 0 <= k < before.len() && before[k].from == f && before[k].to == t;
                                assert(items@[k] == before[k]);
                            } else {
                                assert(items@[before.len() as int].from == f && items@[before.len() as int].to == t);
                            }
                        }
                    }
                }
                to += 1;
            }
            from += 1;
        }
        items
    }

    /// Whether the relocation applied to `src` gives a valid sequence with
    /// a smaller makespan than `other`'s.
    pub fn move_to_be_better_than(&self, prob: &JobShopScheduling, src: &JobShopSolution, other: &JobShopSolution) -> (r: bool)
        requires
            prob.wf(),
            prob.n_jobs * prob.n_machines <= usize::MAX,
            prob.spans_fit(relocated(src.operations@, self.from as int, self.to as int)),
            self.from < src.operations@.len(),
            self.to < src.operations@.len(),
        ensures
            r == (prob.valid_ops(relocated(src.operations@, self.from as int, self.to as int))
                && prob.makespan(relocated(src.operations@, self.from as int, self.to as int)) < other.objective),
    {
        let mut ops = copy_vec(&src.operations);
        relocate_in_place(&mut ops, self.from, self.to);
        match prob.compute_makespan(ops.as_slice()) {
            Ok(makespan) => makespan < other.objective,
            Err(_) => false,
        }
    }
}

} // verus!
