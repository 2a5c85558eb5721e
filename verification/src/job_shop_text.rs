//! The job-shop instance format: `n_jobs n_machines`, then for every job
//! its `n_machines` operations as `machine duration` pairs, 0-indexed
//! machines, tokens read across lines.

use vstd::prelude::*;
use crate::job_shop::JobShopScheduling;
use crate::text::{
    data_lines, concat_lines, data_tokens, usize_token, u32_token, parse_usize, parse_u32,
};

verus! {

/// Why a job-shop instance text was refused.
#[derive(Debug, Clone, Copy, PartialEq, Eq, Structural)]
pub enum JobShopTextError {
    /// `n_jobs` or `n_machines` is missing or not a `usize`.
    BadHeader,
    /// Operation `o` (job `o / n_machines`, operation `o % n_machines`)
    /// lacks a token, has one that does not parse, or names a machine out of
    /// range.
    BadOperation(usize),
}

/// The first two tokens are `usize` counts.
pub open spec fn jssp_header_ok(toks: Seq<Seq<u8>>) -> bool {
    toks.len() >= 2 && usize_token(toks[0]) is Some && usize_token(toks[1]) is Some
}

/// The machine count of the header.
pub open spec fn jssp_machines(toks: Seq<Seq<u8>>) -> int {
    usize_token(toks[1])->0
}

/// The job count of the header.
pub open spec fn jssp_jobs(toks: Seq<Seq<u8>>) -> int {
    usize_token(toks[0])->0
}

/// Operation `o` has a machine in range and a `u32` duration.
pub open spec fn jssp_op_ok(toks: Seq<Seq<u8>>, o: int) -> bool {
    &&& 2 + 2 * o + 1 < toks.len()
    &&& usize_token(toks[2 + 2 * o]) is Some
    &&& usize_token(toks[2 + 2 * o])->0 < jssp_machines(toks)
    &&& u32_token(toks[2 + 2 * o + 1]) is Some
}

/// The `(machine, duration)` of operation `o`.
pub open spec fn jssp_op(toks: Seq<Seq<u8>>, o: int) -> (usize, u32) {
    (usize_token(toks[2 + 2 * o])->0 as usize, u32_token(toks[2 + 2 * o + 1])->0 as u32)
}

impl JobShopScheduling {
    /// Reads an instance named `name` from its text. Blank lines and lines
    /// starting with `#` are skipped; tokens after the last operation are
    /// ignored. Operation `o` is the `k`-th of job `j` with
    /// `o = j * n_machines + k`.
    pub fn parse_text(name: String, text: &[u8]) -> (r: Result<JobShopScheduling, JobShopTextError>)
        ensures
            ({
                let toks = concat_lines(data_lines(text@));
                match r {
                    Err(JobShopTextError::BadHeader) => !jssp_header_ok(toks),
                    Err(JobShopTextError::BadOperation(o)) => {
                        &&& jssp_header_ok(toks)
                        &&& o < jssp_jobs(toks) * jssp_machines(toks)
                        &&& !jssp_op_ok(toks, o as int)
                        &&& forall|p: int| 0 <= p < o ==> jssp_op_ok(toks, p)
                    },
                    Ok(inst) => {
                        &&& jssp_header_ok(toks)
                        &&& forall|p: int| 0 <= p < jssp_jobs(toks) * jssp_machines(toks) ==> jssp_op_ok(toks, p)
                        &&& inst.name == name
                        &&& inst.n_jobs == jssp_jobs(toks)
                        &&& inst.n_machines == jssp_machines(toks)
                        &&& inst.jobs@.len() == inst.n_jobs
                        &&& forall|j: int| 0 <= j < inst.n_jobs ==> (#[trigger] inst.jobs@[j])@.len() == inst.n_machines
                        &&& forall|j: int, k: int| 0 <= j < inst.n_jobs && 0 <= k < inst.n_machines ==>
                            #[trigger] inst.jobs@[j]@[k] == jssp_op(toks, j * inst.n_machines + k)
                    },
                }
            }),
    {
        let toks = data_tokens(text);
        let ghost tv = concat_lines(data_lines(text@));
        if toks.len() < 2 {
            return Err(JobShopTextError::BadHeader);
        }
        proof {
            assert(toks@[0]@ =~= tv[0]);
            assert(toks@[1]@ =~= tv[1]);
        }
        let n_jobs = match parse_usize(toks[0].as_slice()) {
            Some(v) => v,
            None => return Err(JobShopTextError::BadHeader),
        };
        let n_machines = match parse_usize(toks[1].as_slice()) {
            Some(v) => v,
            None => return Err(JobShopTextError::BadHeader),
        };
        let n_toks = toks.len();
        let avail: usize = (n_toks - 2) / 2;
        let mut jobs: Vec<Vec<(usize, u32)>> = Vec::new();
        let mut o: usize = 0;
        let mut j: usize = 0;
        while j < n_jobs
            invariant
                toks.deep_view() == tv,
                tv == concat_lines(data_lines(text@)),
                jssp_header_ok(tv),
                n_jobs == jssp_jobs(tv),
                n_machines == jssp_machines(tv),
                avail == (tv.len() - 2) / 2,
                tv.len() == toks@.len(),
                tv.len() <= usize::MAX,
                tv.len() >= 2,
                j <= n_jobs,
                o == j * n_machines,
                o <= avail,
                jobs@.len() == j,
                forall|p: int| 0 <= p < o ==> jssp_op_ok(tv, p),
                forall|jj: int| 0 <= jj < j ==> (#[trigger] jobs@[jj])@.len() == n_machines,
                forall|jj: int, k: int| 0 <= jj < j && 0 <= k < n_machines ==>
                    #[trigger] jobs@[jj]@[k] == jssp_op(tv, jj * n_machines + k),
            decreases n_jobs - j,
        {
            let mut ops: Vec<(usize, u32)> = Vec::new();
            let mut k: usize = 0;
            while k < n_machines
                invariant
                    toks.deep_view() == tv,
                    tv == concat_lines(data_lines(text@)),
                    jssp_header_ok(tv),
                    n_jobs == jssp_jobs(tv),
                    n_machines == jssp_machines(tv),
                    avail == (tv.len() - 2) / 2,
                    tv.len() == toks@.len(),
                    tv.len() <= usize::MAX,
                    tv.len() >= 2,
                    j < n_jobs,
                    k <= n_machines,
                    o == j * n_machines + k,
                    o <= avail,
                    ops@.len() == k,
                    forall|p: int| 0 <= p < o ==> jssp_op_ok(tv, p),
                    forall|kk: int| 0 <= kk < k ==> #[trigger] ops@[kk] == jssp_op(tv, j * n_machines + kk),
                decreases n_machines - k,
            {
                proof {
                    assert(o < j * n_machines + n_machines);
                    assert((j + 1) * n_machines == j * n_machines + n_machines) by (nonlinear_arith);
                    assert(j + 1 <= n_jobs);
                    assert((j + 1) * n_machines <= n_jobs * n_machines) by (nonlinear_arith)
                        requires j + 1 <= n_jobs;
                }
                if o >= avail {
                    proof {
                        assert(2 + 2 * o + 1 >= tv.len());
                        assert(!jssp_op_ok(tv, o as int));
                        assert(o < n_jobs * n_machines);
                    }
                    return Err(JobShopTextError::BadOperation(o));
                }
                proof {
                    assert(2 * o + 2 <= tv.len() - 2);
                    assert(toks@.len() <= usize::MAX);
                    assert(2 * o <= usize::MAX);
                }
                let pos: usize = 2 + 2 * o;
                proof {
                    assert(toks@[pos as int]@ =~= tv[pos as int]);
                    assert(toks@[pos as int + 1]@ =~= tv[pos as int + 1]);
                }
                let machine = match parse_usize(toks[pos].as_slice()) {
                    Some(v) => v,
                    None => return Err(JobShopTextError::BadOperation(o)),
                };
                let duration = match parse_u32(toks[pos + 1].as_slice()) {
                    Some(v) => v,
                    None => return Err(JobShopTextError::BadOperation(o)),
                };
                if machine >= n_machines {
                    return Err(JobShopTextError::BadOperation(o));
                }
                ops.push((machine, duration));
                o += 1;
                k += 1;
            }
            proof {
                assert((j + 1) * n_machines == j * n_machines + n_machines) by (nonlinear_arith);
            }
            let ghost jb = jobs@;
            jobs.push(ops);
            proof {
                assert forall|jj: int, kk: int| 0 <= jj < j + 1 && 0 <= kk < n_machines implies
                    #[trigger] jobs@[jj]@[kk] == jssp_op(tv, jj * n_machines + kk) by {
                    if jj < j {
                        assert(jobs@[jj] == jb[jj]);
                    }
                }
            }
            j += 1;
        }
        Ok(JobShopScheduling::new(name, n_machines, jobs))
    }
}

} // verus!
