//! Job shop scheduling: operation sequences (each job index repeated once per
//! machine) decoded into left-shift semi-active schedules, their makespan,
//! and the precedence-preserving crossover.

use vstd::prelude::*;
use rand::rngs::SmallRng;
use crate::rng::{half_chance, shuffle};

verus! {

broadcast use vstd::seq_lib::group_to_multiset_ensures;

/// A solution: an operation sequence, its makespan and the completion time
/// of each position.
#[derive(Debug, Clone)]
pub struct JobShopSolution {
    pub operations: Vec<usize>,
    pub objective: u32,
    pub completion_times: Vec<u32>,
}

/// A job shop instance: `jobs[j]` is the ordered list of
/// `(machine, duration)` pairs that job `j` executes.
#[derive(Debug, Clone)]
pub struct JobShopScheduling {
    pub name: String,
    pub n_jobs: usize,
    pub n_machines: usize,
    pub jobs: Vec<Vec<(usize, u32)>>,
}

/// Why an operation sequence does not decode.
#[derive(Debug, Clone, Copy, PartialEq, Eq)]
pub enum DecodeError {
    /// The sequence length is not `n_jobs * n_machines`.
    LengthMismatch { len: usize, expected: usize },
    /// The entry at `index` names no job.
    JobOutOfRange { index: usize, job: usize },
    /// A job occurs more than `n_machines` times.
    TooManyOperations { job: usize },
    /// A job occurs fewer than `n_machines` times.
    WrongCount { job: usize, count: usize },
}

impl JobShopSolution {
    /// The number of positions where the two solutions' `operations` differ.
    pub fn distance(&self, other: &JobShopSolution) -> (r: usize)
        ensures
            r == crate::sums::mismatches(self.operations@, other.operations@,
                if self.operations@.len() < other.operations@.len() { self.operations@.len() as int } else { other.operations@.len() as int }),
    {
        crate::sums::count_mismatches_usize(self.operations.as_slice(), other.operations.as_slice())
    }
}

/// The number of occurrences of `j` in `s`.
pub open spec fn op_count(s: Seq<usize>, j: int) -> int
    decreases s.len(),
{
    if s.len() == 0 {
        0
    } else {
        op_count(s.drop_last(), j) + if s.last() as int == j { 1int } else { 0int }
    }
}

/// Counting occurrences agrees with the multiset of the sequence.
pub proof fn lemma_op_count_multiset(s: Seq<usize>, j: usize)
    ensures
        op_count(s, j as int) == s.to_multiset().count(j),
    decreases s.len(),
{
    if s.len() > 0 {
        lemma_op_count_multiset(s.drop_last(), j);
        assert(s.drop_last().push(s.last()) =~= s);
    } else {
        assert(s.to_multiset() =~= vstd::multiset::Multiset::<usize>::empty());
    }
}

/// A prefix holds at most as many occurrences as a longer prefix.
proof fn lemma_op_count_prefix(s: Seq<usize>, a: int, b: int, j: int)
    requires
        0 <= a <= b <= s.len(),
    ensures
        op_count(s.take(a), j) <= op_count(s.take(b), j),
    decreases b - a,
{
    if a < b {
        lemma_op_count_prefix(s, a, b - 1, j);
        assert(s.take(b).drop_last() =~= s.take(b - 1));
    }
}

impl JobShopScheduling {
    /// The duration of operation `k` of job `j`.
    pub open spec fn dur(self, j: int, k: int) -> int {
        self.jobs@[j]@[k].1 as int
    }

    /// The machine of operation `k` of job `j`.
    pub open spec fn mach(self, j: int, k: int) -> int {
        self.jobs@[j]@[k].0 as int
    }

    /// Every job lists at least `n_machines` operations on machines below
    /// `n_machines`.
    pub open spec fn wf(self) -> bool {
        &&& self.jobs@.len() == self.n_jobs
        &&& forall|j: int| 0 <= j < self.n_jobs ==> (#[trigger] self.jobs@[j])@.len() >= self.n_machines
        &&& forall|j: int, k: int| 0 <= j < self.n_jobs && 0 <= k < self.n_machines ==> #[trigger] self.mach(j, k) < self.n_machines
    }

    /// The sequence names only jobs, none more than `n_machines` times: a
    /// prefix that decoding gets through.
    pub open spec fn in_range(self, s: Seq<usize>) -> bool {
        &&& forall|k: int| 0 <= k < s.len() ==> #[trigger] s[k] < self.n_jobs
        &&& forall|j: int| 0 <= j < self.n_jobs ==> #[trigger] op_count(s, j) <= self.n_machines
    }

    /// Every finish time that decoding `ops` reaches fits a `u32`: the
    /// makespan of each prefix that decoding gets through, when the length
    /// is right (otherwise decoding stops at once).
    pub open spec fn spans_fit(self, ops: Seq<usize>) -> bool {
        ops.len() == self.n_jobs * self.n_machines ==>
            forall|p: int| 0 <= p <= ops.len() && self.in_range(#[trigger] ops.take(p)) ==> self.sched(ops.take(p)).3 <= u32::MAX
    }

    /// Every valid sequence has a makespan that fits a `u32`.
    pub open spec fn all_spans_fit(self) -> bool {
        forall|ops: Seq<usize>| #[trigger] self.valid_ops(ops) ==> self.makespan(ops) <= u32::MAX
    }

    /// The sequence names every job exactly `n_machines` times and nothing
    /// else.
    pub open spec fn valid_ops(self, ops: Seq<usize>) -> bool {
        &&& ops.len() == self.n_jobs * self.n_machines
        &&& forall|i: int| 0 <= i < ops.len() ==> #[trigger] ops[i] < self.n_jobs
        &&& forall|j: int| 0 <= j < self.n_jobs ==> #[trigger] op_count(ops, j) == self.n_machines
    }

    /// Position `i` is where decoding stops: it names no job, or a job that
    /// already occurred `n_machines` times before it.
    pub open spec fn bad_at(self, ops: Seq<usize>, i: int) -> bool {
        ops[i] >= self.n_jobs || op_count(ops.take(i), ops[i] as int) >= self.n_machines
    }

    /// No position before `p` stops decoding.
    pub open spec fn clean_before(self, ops: Seq<usize>, p: int) -> bool {
        forall|i: int| 0 <= i < p ==> !#[trigger] self.bad_at(ops, i)
    }

    /// `e` is the error that decoding `ops` reports: a wrong length first;
    /// then the first position that stops decoding, by its kind; then the
    /// first job that occurs other than `n_machines` times.
    pub open spec fn decode_fault(self, ops: Seq<usize>, e: DecodeError) -> bool {
        let expected = self.n_jobs * self.n_machines;
        match e {
            DecodeError::LengthMismatch { len, expected: exp } =>
                ops.len() != expected && len == ops.len() && exp == expected,
            DecodeError::JobOutOfRange { index, job } =>
                ops.len() == expected && index < ops.len() && job == ops[index as int] && job >= self.n_jobs
                    && self.clean_before(ops, index as int),
            DecodeError::TooManyOperations { job } =>
                ops.len() == expected && job < self.n_jobs && exists|index: int| #![trigger ops[index]] 0 <= index < ops.len()
                    && ops[index] == job && op_count(ops.take(index), job as int) >= self.n_machines
                    && self.clean_before(ops, index),
            DecodeError::WrongCount { job, count } =>
                ops.len() == expected && self.clean_before(ops, ops.len() as int) && job < self.n_jobs
                    && count == op_count(ops, job as int) && count != self.n_machines
                    && forall|x: int| 0 <= x < job ==> #[trigger] op_count(ops, x) == self.n_machines,
        }
    }

    /// The position that stops decoding, as an error of the two middle
    /// kinds names it.
    spec fn stop_position(self, ops: Seq<usize>, e: DecodeError) -> int {
        match e {
            DecodeError::JobOutOfRange { index, job } => index as int,
            DecodeError::TooManyOperations { job } => choose|index: int| #![trigger ops[index]] 0 <= index < ops.len()
                && ops[index] == job && op_count(ops.take(index), job as int) >= self.n_machines
                && self.clean_before(ops, index),
            _ => 0,
        }
    }

    /// A sequence has at most one decoding error: any two errors that both
    /// describe it are the same.
    pub proof fn lemma_decode_fault_unique(self, ops: Seq<usize>, e1: DecodeError, e2: DecodeError)
        requires
            self.decode_fault(ops, e1),
            self.decode_fault(ops, e2),
        ensures
            e1 == e2,
    {
        let p1 = self.stop_position(ops, e1);
        let p2 = self.stop_position(ops, e2);
        if (e1 is JobOutOfRange || e1 is TooManyOperations) && (e2 is JobOutOfRange || e2 is TooManyOperations) {
            assert(self.bad_at(ops, p1));
            assert(self.bad_at(ops, p2));
            if p1 < p2 {
                assert(!self.bad_at(ops, p1));
            } else if p2 < p1 {
                assert(!self.bad_at(ops, p2));
            }
        } else if e1 is WrongCount && (e2 is JobOutOfRange || e2 is TooManyOperations) {
            assert(self.bad_at(ops, p2));
        } else if e2 is WrongCount && (e1 is JobOutOfRange || e1 is TooManyOperations) {
            assert(self.bad_at(ops, p1));
        } else if e1 is WrongCount && e2 is WrongCount {
            let j1 = e1->WrongCount_job as int;
            let j2 = e2->WrongCount_job as int;
            if j1 < j2 {
                assert(op_count(ops, j1) == self.n_machines);
            } else if j2 < j1 {
                assert(op_count(ops, j2) == self.n_machines);
            }
        }
    }

    /// The schedule of a sequence, decoded left to right: each operation
    /// starts when both its machine and its job are released. The result is
    /// `(machine release times, job release times, completion times,
    /// makespan)`.
    pub open spec fn sched(self, ops: Seq<usize>) -> (Seq<int>, Seq<int>, Seq<int>, int)
        decreases ops.len(),
    {
        if ops.len() == 0 {
            (Seq::new(self.n_machines as nat, |m: int| 0int), Seq::new(self.n_jobs as nat, |j: int| 0int), Seq::empty(), 0)
        } else {
            let prev = self.sched(ops.drop_last());
            let j = ops.last() as int;
            let k = op_count(ops.drop_last(), j);
            let m = self.mach(j, k);
            let start = vstd::math::max(prev.0[m], prev.1[j]);
            let fin = start + self.dur(j, k);
            (prev.0.update(m, fin), prev.1.update(j, fin), prev.2.push(fin), vstd::math::max(prev.3, fin))
        }
    }

    /// The makespan of a valid sequence.
    pub open spec fn makespan(self, ops: Seq<usize>) -> int {
        self.sched(ops).3
    }

    /// Creates an instance from `(machine, duration)` sequences.
    pub fn new(name: String, n_machines: usize, jobs: Vec<Vec<(usize, u32)>>) -> (r: JobShopScheduling)
        ensures
            r.name == name,
            r.n_machines == n_machines,
            r.n_jobs == jobs@.len(),
            r.jobs == jobs,
    {
        let n_jobs = jobs.len();
        JobShopScheduling { name, n_jobs, n_machines, jobs }
    }

    /// Decodes an operation sequence into a left-shift semi-active schedule:
    /// `(makespan, completion_times)`, `completion_times[i]` being the finish
    /// time of `operations[i]`. It fails exactly when the sequence does not
    /// name every job `n_machines` times (the length is checked first).
    pub fn decode(&self, operations: &[usize]) -> (r: Result<(u32, Vec<u32>), DecodeError>)
        requires
            self.wf(),
            self.n_jobs * self.n_machines <= usize::MAX,
            self.spans_fit(operations@),
        ensures
            r is Ok <==> self.valid_ops(operations@),
            operations@.len() != self.n_jobs * self.n_machines <==> r matches Err(DecodeError::LengthMismatch { .. }),
            r matches Err(e) ==> self.decode_fault(operations@, e),
            r matches Ok((span, comp)) ==> span as int == self.makespan(operations@)
                && comp@.len() == operations@.len()
                && forall|i: int| 0 <= i < comp@.len() ==> #[trigger] comp@[i] as int == self.sched(operations@).2[i],
    {
        let ghost ops = operations@;
        let nj = self.n_jobs;
        let nm = self.n_machines;
        let expected = nj * nm;
        if operations.len() != expected {
            return Err(DecodeError::LengthMismatch { len: operations.len(), expected });
        }
        let mut machine_release: Vec<u32> = Vec::new();
        let mut m: usize = 0;
        while m < nm
            invariant
                0 <= m <= nm,
                machine_release@.len() == m,
                forall|x: int| 0 <= x < m ==> #[trigger] machine_release@[x] == 0,
            decreases nm - m,
        {
            machine_release.push(0);
            m += 1;
        }
        let mut job_release: Vec<u32> = Vec::new();
        let mut job_op_idx: Vec<usize> = Vec::new();
        let mut jj: usize = 0;
        while jj < nj
            invariant
                0 <= jj <= nj,
                job_release@.len() == jj,
                job_op_idx@.len() == jj,
                forall|x: int| 0 <= x < jj ==> #[trigger] job_release@[x] == 0,
                forall|x: int| 0 <= x < jj ==> #[trigger] job_op_idx@[x] == 0,
            decreases nj - jj,
        {
            job_release.push(0);
            job_op_idx.push(0);
            jj += 1;
        }
        let mut completion_times: Vec<u32> = Vec::new();
        let mut makespan: u32 = 0;
        proof {
            assert(ops.take(0) =~= Seq::<usize>::empty());
        }
        let mut i: usize = 0;
        while i < operations.len()
            invariant
                0 <= i <= ops.len(),
                ops == operations@,
                ops.len() == nj * nm,
                self.wf(),
                nj == self.n_jobs,
                nm == self.n_machines,
                self.spans_fit(ops),
                machine_release@.len() == nm,
                job_release@.len() == nj,
                job_op_idx@.len() == nj,
                forall|x: int| 0 <= x < nm ==> #[trigger] machine_release@[x] as int == self.sched(ops.take(i as int)).0[x],
                forall|x: int| 0 <= x < nj ==> #[trigger] job_release@[x] as int == self.sched(ops.take(i as int)).1[x],
                forall|x: int| 0 <= x < nj ==> #[trigger] job_op_idx@[x] as int == op_count(ops.take(i as int), x),
                forall|x: int| 0 <= x < nj ==> #[trigger] job_op_idx@[x] <= nm,
                completion_times@.len() == i,
                forall|x: int| 0 <= x < i ==> #[trigger] completion_times@[x] as int == self.sched(ops.take(i as int)).2[x],
                makespan as int == self.sched(ops.take(i as int)).3,
                self.sched(ops.take(i as int)).0.len() == nm,
                self.sched(ops.take(i as int)).1.len() == nj,
                self.sched(ops.take(i as int)).2.len() == i,
                forall|k: int| 0 <= k < i ==> #[trigger] ops[k] < nj,
                self.clean_before(ops, i as int),
            decreases ops.len() - i,
        {
            let j = operations[i];
            let ghost t1 = ops.take(i as int + 1);
            proof {
                assert(t1.drop_last() =~= ops.take(i as int));
                assert(t1.last() == j);
            }
            if j >= nj {
                proof {
                    assert(!self.valid_ops(ops));
                }
                return Err(DecodeError::JobOutOfRange { index: i, job: j });
            }
            let k = job_op_idx[j];
            if k >= nm {
                proof {
                    lemma_op_count_prefix(ops, i as int + 1, ops.len() as int, j as int);
                    assert(ops.take(ops.len() as int) =~= ops);
                    assert(!self.valid_ops(ops));
                }
                proof {
                    assert(ops[i as int] == j);
                    assert(op_count(ops.take(i as int), j as int) >= nm);
                }
                return Err(DecodeError::TooManyOperations { job: j });
            }
            let (machine, duration) = self.jobs[j][k];
            proof {
                assert(self.mach(j as int, k as int) < nm);
                assert(self.in_range(t1)) by {
                    assert forall|kk: int| 0 <= kk < t1.len() implies #[trigger] t1[kk] < nj by {
                        if kk < i {
                            assert(t1[kk] == ops[kk]);
                        }
                    }
                    assert forall|x: int| 0 <= x < nj implies #[trigger] op_count(t1, x) <= nm by {
                        assert(op_count(t1, x) == op_count(ops.take(i as int), x) + if j as int == x { 1int } else { 0int });
                        assert(job_op_idx@[x] as int == op_count(ops.take(i as int), x));
                        assert(job_op_idx@[x] <= nm);
                    }
                }
                assert(self.sched(t1).3 <= u32::MAX);
            }
            let mr = machine_release[machine];
            let jr = job_release[j];
            let start = if mr > jr { mr } else { jr };
            proof {
                assert(start as int + duration as int <= self.sched(t1).3);
            }
            let finish = start + duration;
            machine_release.set(machine, finish);
            job_release.set(j, finish);
            job_op_idx.set(j, k + 1);
            completion_times.push(finish);
            if finish > makespan {
                makespan = finish;
            }
            proof {
                assert forall|x: int| 0 <= x < nj implies #[trigger] job_op_idx@[x] as int == op_count(t1, x) by {}
                assert(!self.bad_at(ops, i as int));
                assert forall|kk: int| 0 <= kk < i + 1 implies !#[trigger] self.bad_at(ops, kk) by {
                    if kk < i {
                        assert(self.clean_before(ops, i as int));
                    }
                }
            }
            i += 1;
        }
        proof {
            assert(ops.take(ops.len() as int) =~= ops);
        }
        let mut jj2: usize = 0;
        while jj2 < nj
            invariant
                0 <= jj2 <= nj,
                ops == operations@,
                ops.len() == nj * nm,
                forall|k: int| 0 <= k < ops.len() ==> #[trigger] ops[k] < nj,
                nj == self.n_jobs,
                nm == self.n_machines,
                job_op_idx@.len() == nj,
                ops.take(ops.len() as int) == ops,
                forall|x: int| 0 <= x < nj ==> #[trigger] job_op_idx@[x] as int == op_count(ops, x),
                forall|x: int| 0 <= x < jj2 ==> #[trigger] op_count(ops, x) == nm,
                self.clean_before(ops, ops.len() as int),
            decreases nj - jj2,
        {
            if job_op_idx[jj2] != nm {
                return Err(DecodeError::WrongCount { job: jj2, count: job_op_idx[jj2] });
            }
            jj2 += 1;
        }
        proof {
            assert(ops.take(ops.len() as int) =~= ops);
        }
        Ok((makespan, completion_times))
    }

}

impl JobShopScheduling {
    /// The makespan of a prefix is at most that of the whole sequence.
    pub proof fn lemma_prefix_span(self, s: Seq<usize>, p: int)
        requires
            0 <= p <= s.len(),
        ensures
            self.sched(s.take(p)).3 <= self.sched(s).3,
        decreases s.len(),
    {
        if p == s.len() {
            assert(s.take(p) =~= s);
        } else {
            let t = s.drop_last();
            self.lemma_prefix_span(t, p);
            assert(t.take(p) =~= s.take(p));
        }
    }

    /// A sequence of the right length whose makespan fits a `u32` has every
    /// finish time fit.
    pub proof fn lemma_spans_fit(self, s: Seq<usize>)
        requires
            self.makespan(s) <= u32::MAX,
        ensures
            self.spans_fit(s),
    {
        assert forall|p: int| 0 <= p <= s.len() && self.in_range(#[trigger] s.take(p)) implies self.sched(s.take(p)).3 <= u32::MAX by {
            self.lemma_prefix_span(s, p);
        }
    }
}

impl JobShopScheduling {
    /// The makespan of an operation sequence: the makespan that
    /// [`JobShopScheduling::decode`] gives, with the same errors.
    pub fn compute_makespan(&self, operations: &[usize]) -> (r: Result<u32, DecodeError>)
        requires
            self.wf(),
            self.n_jobs * self.n_machines <= usize::MAX,
            self.spans_fit(operations@),
        ensures
            r is Ok <==> self.valid_ops(operations@),
            r matches Err(e) ==> self.decode_fault(operations@, e),
            r matches Ok(span) ==> span as int == self.makespan(operations@),
    {
        match self.decode(operations) {
            Ok((span, _)) => Ok(span),
            Err(e) => Err(e),
        }
    }

    /// A random solution: every job repeated `n_machines` times, shuffled,
    /// and decoded.
    pub fn new_solution(&self, rng: &mut SmallRng) -> (r: JobShopSolution)
        requires
            self.wf(),
            self.n_jobs * self.n_machines <= usize::MAX,
            self.all_spans_fit(),
        ensures
            self.valid_ops(r.operations@),
            r.objective as int == self.makespan(r.operations@),
            r.completion_times@.len() == r.operations@.len(),
            forall|i: int| 0 <= i < r.completion_times@.len() ==>
                #[trigger] r.completion_times@[i] as int == self.sched(r.operations@).2[i],
    {
        let nj = self.n_jobs;
        let nm = self.n_machines;
        let mut operations: Vec<usize> = Vec::new();
        let mut j: usize = 0;
        while j < nj
            invariant
                0 <= j <= nj,
                nj == self.n_jobs,
                nm == self.n_machines,
                nj * nm <= usize::MAX,
                operations@.len() == j * nm,
                forall|i: int| 0 <= i < operations@.len() ==> #[trigger] operations@[i] < j,
                forall|x: int| 0 <= x < j ==> #[trigger] op_count(operations@, x) == nm,
                forall|x: int| j <= x ==> #[trigger] op_count(operations@, x) == 0,
            decreases nj - j,
        {
            let mut k: usize = 0;
            proof {
                assert((j + 1) * nm <= nj * nm) by (nonlinear_arith)
                    requires j + 1 <= nj;
                assert((j + 1) * nm == j * nm + nm) by (nonlinear_arith);
            }
            while k < nm
                invariant
                    0 <= k <= nm,
                    j < nj,
                    nj == self.n_jobs,
                    nm == self.n_machines,
                    (j + 1) * nm <= usize::MAX,
                    (j + 1) * nm == j * nm + nm,
                    operations@.len() == j * nm + k,
                    forall|i: int| 0 <= i < operations@.len() ==> #[trigger] operations@[i] < j + 1,
                    forall|x: int| 0 <= x < j ==> #[trigger] op_count(operations@, x) == nm,
                    op_count(operations@, j as int) == k,
                    forall|x: int| j < x ==> #[trigger] op_count(operations@, x) == 0,
                decreases nm - k,
            {
                let ghost before = operations@;
                operations.push(j);
                proof {
                    assert(operations@.drop_last() =~= before);
                    assert(operations@.last() == j);
                    assert forall|x: int| 0 <= x < j implies #[trigger] op_count(operations@, x) == nm by {
                        assert(op_count(operations@, x) == op_count(before, x));
                    }
                    assert forall|x: int| j < x implies #[trigger] op_count(operations@, x) == 0 by {
                        assert(op_count(operations@, x) == op_count(before, x));
                    }
                }
                k += 1;
            }
            j += 1;
        }
        proof {
            assert(nj * nm == operations@.len());
        }
        let ghost before = operations@;
        shuffle(&mut operations, rng);
        proof {
            assert forall|x: int| 0 <= x < nj implies #[trigger] op_count(operations@, x) == nm by {
                lemma_op_count_multiset(operations@, x as usize);
                lemma_op_count_multiset(before, x as usize);
            }
            assert forall|i: int| 0 <= i < operations@.len() implies #[trigger] operations@[i] < nj by {
                let v = operations@[i];
                assert(operations@.contains(v));
                lemma_op_count_multiset(operations@, v);
                lemma_op_count_multiset(before, v);
                if v >= nj {
                    assert(op_count(before, v as int) == 0);
                }
            }
            assert(self.valid_ops(operations@));
            self.lemma_spans_fit(operations@);
        }
        let decoded = self.decode(operations.as_slice());
        match decoded {
            Ok((objective, completion_times)) => JobShopSolution { operations, objective, completion_times },
            Err(_) => {
                proof {
                    assert(false);
                }
                JobShopSolution { operations, objective: 0, completion_times: Vec::new() }
            },
        }
    }
}

/// `s` without the first occurrence of `x`.
pub open spec fn remove_first(s: Seq<usize>, x: usize) -> Seq<usize> {
    s.remove_value(x)
}

/// The child of the precedence-preserving crossover: at each step the next
/// job is the head of the first parent's remainder when `picks[t]` holds and
/// of the second's otherwise, and its first occurrence leaves both.
pub open spec fn ppx_child(a: Seq<usize>, b: Seq<usize>, picks: Seq<bool>) -> Seq<usize>
    decreases picks.len(),
{
    if picks.len() == 0 || a.len() == 0 || b.len() == 0 {
        Seq::empty()
    } else {
        let job = if picks[0] { a[0] } else { b[0] };
        seq![job] + ppx_child(remove_first(a, job), remove_first(b, job), picks.drop_first())
    }
}

/// Precedence-preserving crossover (PPX) for operation sequences.
#[derive(Debug, Clone, Copy)]
pub struct JobShopPpxCrossover;

impl JobShopPpxCrossover {
    /// The PPX child of two sequences holding the same jobs equally often:
    /// at step `t` the next job is taken from the head of what remains of
    /// `a` when `picks[t]` holds, of `b` otherwise, and its first occurrence
    /// is consumed from both.
    pub fn child_with(a: &[usize], b: &[usize], picks: &[bool]) -> (r: Vec<usize>)
        requires
            a@.to_multiset() == b@.to_multiset(),
            picks@.len() == a@.len(),
        ensures
            r@ == ppx_child(a@, b@, picks@),
            r@.to_multiset() == a@.to_multiset(),
    {
        let mut ra: Vec<usize> = crate::qubo_solution::copy_vec_slice(a);
        let mut rb: Vec<usize> = crate::qubo_solution::copy_vec_slice(b);
        let mut child: Vec<usize> = Vec::new();
        let n = a.len();
        proof {
            assert(picks@.skip(0) =~= picks@);
            assert(child@ + ppx_child(ra@, rb@, picks@.skip(0)) =~= ppx_child(a@, b@, picks@));
            assert(child@.to_multiset() =~= vstd::multiset::Multiset::<usize>::empty());
            assert(child@.to_multiset().add(ra@.to_multiset()) =~= a@.to_multiset());
        }
        let mut t: usize = 0;
        while t < n
            invariant
                0 <= t <= n,
                n == a@.len(),
                picks@.len() == n,
                ra@.len() == n - t,
                ra@.to_multiset() == rb@.to_multiset(),
                child@.to_multiset().add(ra@.to_multiset()) == a@.to_multiset(),
                child@ + ppx_child(ra@, rb@, picks@.skip(t as int)) == ppx_child(a@, b@, picks@),
            decreases n - t,
        {
            proof {
                assert(rb@.len() == rb@.to_multiset().len());
            }
            let job = if picks[t] { ra[0] } else { rb[0] };
            let ghost ra0 = ra@;
            let ghost rb0 = rb@;
            proof {
                assert(ra0.contains(job) && rb0.contains(job)) by {
                    if picks@[t as int] {
                        assert(ra0[0] == job);
                        assert(ra0.to_multiset().count(job) > 0);
                    } else {
                        assert(rb0[0] == job);
                        assert(rb0.to_multiset().count(job) > 0);
                    }
                }
                assert(picks@.skip(t as int)[0] == picks@[t as int]);
                assert(picks@.skip(t as int).drop_first() =~= picks@.skip(t as int + 1));
            }
            child.push(job);
            proof {
                ra0.index_of_first_ensures(job);
                rb0.index_of_first_ensures(job);
            }
            let pa = first_position(ra.as_slice(), job);
            ra.remove(pa);
            let pb = first_position(rb.as_slice(), job);
            rb.remove(pb);
            proof {
                ra0.index_of_first_ensures(job);
                rb0.index_of_first_ensures(job);
                assert(ra@ == remove_first(ra0, job));
                assert(rb@ == remove_first(rb0, job));
                assert(ra@.to_multiset() =~= ra0.to_multiset().remove(job));
                assert(rb@.to_multiset() =~= rb0.to_multiset().remove(job));
                assert(child@.to_multiset().add(ra@.to_multiset()) =~= a@.to_multiset());
                assert(child@ + ppx_child(ra@, rb@, picks@.skip(t as int + 1)) =~= ppx_child(a@, b@, picks@));
            }
            t += 1;
        }
        proof {
            assert(ra@.len() == 0);
            assert(ra@.to_multiset() =~= vstd::multiset::Multiset::<usize>::empty());
            assert(child@.to_multiset().add(ra@.to_multiset()) =~= child@.to_multiset());
            assert(child@ + ppx_child(ra@, rb@, picks@.skip(n as int)) =~= child@);
        }
        child
    }

    /// PPX crossover: for each position a fair coin chooses the parent whose
    /// next operation is taken; the child is then decoded.
    pub fn crossover(&mut self, prob: &JobShopScheduling, sol1: &JobShopSolution, sol2: &JobShopSolution, rng: &mut SmallRng) -> (r: Result<JobShopSolution, DecodeError>)
        requires
            prob.wf(),
            prob.n_jobs * prob.n_machines <= usize::MAX,
            sol1.operations@.to_multiset() == sol2.operations@.to_multiset(),
            forall|p: Seq<bool>| p.len() == sol1.operations@.len() ==>
                prob.spans_fit(#[trigger] ppx_child(sol1.operations@, sol2.operations@, p)),
        ensures
            r is Ok <==> prob.valid_ops(sol1.operations@),
            r matches Ok(s) ==> exists|p: Seq<bool>| p.len() == sol1.operations@.len()
                && s.operations@ == #[trigger] ppx_child(sol1.operations@, sol2.operations@, p),
            r matches Ok(s) ==> s.operations@.to_multiset() == sol1.operations@.to_multiset()
                && s.objective as int == prob.makespan(s.operations@)
                && s.completion_times@.len() == s.operations@.len()
                && forall|i: int| 0 <= i < s.completion_times@.len() ==>
                    #[trigger] s.completion_times@[i] as int == prob.sched(s.operations@).2[i],
    {
        let n = sol1.operations.len();
        let mut picks: Vec<bool> = Vec::new();
        let mut t: usize = 0;
        while t < n
            invariant
                0 <= t <= n,
                picks@.len() == t,
            decreases n - t,
        {
            let b = half_chance(rng);
            picks.push(b);
            t += 1;
        }
        let child = Self::child_with(sol1.operations.as_slice(), sol2.operations.as_slice(), picks.as_slice());
        proof {
            lemma_valid_by_multiset(*prob, child@, sol1.operations@);
            assert(prob.spans_fit(ppx_child(sol1.operations@, sol2.operations@, picks@)));
        }
        match prob.decode(child.as_slice()) {
            Ok((objective, completion_times)) => Ok(JobShopSolution { operations: child, objective, completion_times }),
            Err(e) => Err(e),
        }
    }
}

/// Validity depends only on the multiset of jobs.
pub proof fn lemma_valid_by_multiset(prob: JobShopScheduling, s: Seq<usize>, t: Seq<usize>)
    requires
        s.to_multiset() == t.to_multiset(),
    ensures
        prob.valid_ops(s) == prob.valid_ops(t),
{
    assert(s.len() == s.to_multiset().len());
    assert(t.len() == t.to_multiset().len());
    assert forall|x: int| 0 <= x < prob.n_jobs implies #[trigger] op_count(s, x) == op_count(t, x) by {
        lemma_op_count_multiset(s, x as usize);
        lemma_op_count_multiset(t, x as usize);
    }
    assert(s.len() == t.len());
    if prob.valid_ops(t) {
        assert forall|x: int| 0 <= x < prob.n_jobs implies #[trigger] op_count(s, x) == prob.n_machines by {
            assert(op_count(t, x) == prob.n_machines);
        }
        assert forall|i: int| 0 <= i < s.len() implies #[trigger] s[i] < prob.n_jobs by {
            assert(s.contains(s[i]));
            assert(s.to_multiset().count(s[i]) > 0);
            assert(t.to_multiset().count(s[i]) > 0);
            assert(t.contains(s[i]));
            let k = choose|k: int| 0 <= k < t.len() && t[k] == s[i];
        }
    }
    if prob.valid_ops(s) {
        assert forall|x: int| 0 <= x < prob.n_jobs implies #[trigger] op_count(t, x) == prob.n_machines by {
            assert(op_count(s, x) == prob.n_machines);
        }
        assert forall|i: int| 0 <= i < t.len() implies #[trigger] t[i] < prob.n_jobs by {
            assert(t.contains(t[i]));
            assert(t.to_multiset().count(t[i]) > 0);
            assert(s.to_multiset().count(t[i]) > 0);
            assert(s.contains(t[i]));
            let k = choose|k: int| 0 <= k < s.len() && s[k] == t[i];
        }
    }
}

/// The first position of `x` in `s`, which must occur.
fn first_position(s: &[usize], x: usize) -> (r: usize)
    requires
        s@.contains(x),
    ensures
        s@.index_of_first(x) == Some(r as int),
{
    proof {
        s@.index_of_first_ensures(x);
    }
    let mut k: usize = 0;
    while k < s.len()
        invariant
            0 <= k <= s@.len(),
            s@.contains(x),
            forall|kk: int| 0 <= kk < k ==> #[trigger] s@[kk] != x,
        decreases s@.len() - k,
    {
        if s[k] == x {
            proof {
                s@.index_of_first_ensures(x);
                let idx = s@.index_of_first(x)->0;
                assert(idx == k);
            }
            return k;
        }
        k += 1;
    }
    proof {
        let kk = choose|kk: int| 0 <= kk < s@.len() && s@[kk] == x;
    }
    0
}

} // verus!
