//! Bounded integer variables and their collections: ranges, the number of
//! single-variable changes, and the checks a value vector must pass.

use vstd::prelude::*;
use rand::rngs::SmallRng;
use crate::rng::{between, shuffle};

verus! {

/// The indices `0..n`, in order.
pub open spec fn index_seq(n: nat) -> Seq<usize> {
    Seq::new(n, |k: int| k as usize)
}

/// An integer variable that takes any value in `lower..=upper`.
#[derive(Clone, Copy, Debug, PartialEq, Eq, Structural)]
pub struct IntVar {
    lower: i64,
    upper: i64,
}

impl IntVar {
    /// The smallest value.
    pub closed spec fn lo(self) -> int {
        self.lower as int
    }

    /// The largest value.
    pub closed spec fn hi(self) -> int {
        self.upper as int
    }

    /// The range is non-empty and its width fits a `u64` below its maximum.
    pub closed spec fn wf(self) -> bool {
        self.lower <= self.upper && self.upper - self.lower < u64::MAX
    }

    /// A variable ranging over `lower..=upper`. The range must be non-empty
    /// and not cover every `i64`.
    pub fn new(lower: i64, upper: i64) -> (r: IntVar)
        requires
            lower <= upper,
            upper - lower < u64::MAX,
        ensures
            r.wf(),
            r.lo() == lower,
            r.hi() == upper,
    {
        IntVar { lower, upper }
    }

    /// A variable ranging over `0..=1`.
    pub fn binary() -> (r: IntVar)
        ensures
            r.wf(),
            r.lo() == 0,
            r.hi() == 1,
    {
        Self::new(0, 1)
    }

    /// The smallest value the variable takes.
    pub fn lower(&self) -> (r: i64)
        ensures
            r == self.lo(),
    {
        self.lower
    }

    /// The largest value the variable takes.
    pub fn upper(&self) -> (r: i64)
        ensures
            r == self.hi(),
    {
        self.upper
    }

    /// Whether `value` lies in `lower..=upper`.
    pub fn contains(&self, value: i64) -> (r: bool)
        ensures
            r == (self.lo() <= value <= self.hi()),
    {
        self.lower <= value && value <= self.upper
    }

    /// How many other values the variable can change to: `upper - lower`.
    pub fn num_changes(&self) -> (r: u64)
        requires
            self.wf(),
        ensures
            r == self.hi() - self.lo(),
    {
        (self.upper as i128 - self.lower as i128) as u64
    }
}

/// The sum of the widths of the first `n` variables.
pub open spec fn widths(vars: Seq<IntVar>, n: int) -> int
    decreases n,
{
    if n <= 0 {
        0
    } else {
        widths(vars, n - 1) + (vars[n - 1].hi() - vars[n - 1].lo())
    }
}

/// Why a value vector does not fit the variables.
#[derive(Debug, Clone, Copy, PartialEq, Eq)]
pub enum ValueError {
    /// The number of values is not the number of variables.
    WrongLength { values: usize, vars: usize },
    /// The value of variable `index` lies outside its range.
    OutOfRange { index: usize, value: i64 },
    /// A value occurs twice where the variables form a permutation.
    Repeated { value: i64 },
}

/// The variables of an integer problem, indexed `0..n`, with the running
/// totals of their widths.
#[derive(Clone, Debug)]
pub struct IntVars {
    vars: Vec<IntVar>,
    cum_changes: Vec<u64>,
    all_different: bool,
    common_width: Option<u64>,
}

impl IntVars {
    /// The variables.
    pub closed spec fn view_vars(self) -> Seq<IntVar> {
        self.vars@
    }

    /// Whether the variables must take different values.
    pub closed spec fn perm(self) -> bool {
        self.all_different
    }

    /// The representation invariant: the running totals, the common width,
    /// and, for a permutation, ranges that start at `0` below the length.
    pub closed spec fn wf(self) -> bool {
        &&& forall|i: int| 0 <= i < self.vars@.len() ==> (#[trigger] self.vars@[i]).wf()
        &&& self.all_different ==> forall|i: int| 0 <= i < self.vars@.len() ==>
            (#[trigger] self.vars@[i]).lo() == 0 && self.vars@[i].hi() < self.vars@.len()
        &&& self.cum_changes@.len() == self.vars@.len()
        &&& forall|i: int| 0 <= i < self.vars@.len() ==> #[trigger] self.cum_changes@[i] == widths(self.vars@, i + 1)
        &&& self.common_width == (if self.vars@.len() > 0 && forall|a: int, b: int| 0 <= a < self.vars@.len() && 0 <= b < self.vars@.len()
            ==> #[trigger] self.vars@[a] == #[trigger] self.vars@[b] {
            Some((self.vars@[0].hi() - self.vars@[0].lo()) as u64)
        } else {
            None
        })
    }

    /// Collects the variables, keeping the running totals of their widths;
    /// the total must fit a `u64`.
    pub fn new(vars: Vec<IntVar>) -> (r: IntVars)
        requires
            forall|i: int| 0 <= i < vars@.len() ==> (#[trigger] vars@[i]).wf(),
            widths(vars@, vars@.len() as int) <= u64::MAX,
        ensures
            r.wf(),
            r.view_vars() == vars@,
            !r.perm(),
    {
        let mut cum: Vec<u64> = Vec::new();
        let mut total: u64 = 0;
        let mut i: usize = 0;
        proof {
            lemma_widths_mono(vars@, vars@.len() as int);
        }
        while i < vars.len()
            invariant
                0 <= i <= vars@.len(),
                forall|t: int| 0 <= t < vars@.len() ==> (#[trigger] vars@[t]).wf(),
                forall|t: int| 0 <= t <= vars@.len() ==> #[trigger] widths(vars@, t) <= widths(vars@, vars@.len() as int),
                widths(vars@, vars@.len() as int) <= u64::MAX,
                cum@.len() == i,
                total == widths(vars@, i as int),
                forall|t: int| 0 <= t < i ==> #[trigger] cum@[t] == widths(vars@, t + 1),
            decreases vars@.len() - i,
        {
            let w = vars[i].num_changes();
            proof {
                assert(widths(vars@, i as int + 1) <= widths(vars@, vars@.len() as int));
            }
            total = total + w;
            cum.push(total);
            i += 1;
        }
        let mut same = true;
        let mut k: usize = 1;
        while k < vars.len()
            invariant
                1 <= k,
                k <= vars@.len() || vars@.len() == 0,
                same == forall|a: int| 0 <= a < k && a < vars@.len() ==> #[trigger] vars@[a] == vars@[0],
            decreases vars@.len() - k,
        {
            if !(vars[k - 1].lower == vars[k].lower && vars[k - 1].upper == vars[k].upper) {
                proof {
                    if same {
                        assert(vars@[k - 1] == vars@[0]);
                    }
                }
                same = false;
            }
            proof {
                if same {
                    assert(vars@[k as int] == vars@[0]) by {
                        assert(vars@[k - 1] == vars@[0]);
                    }
                }
            }
            k += 1;
        }
        let common_width = if same && vars.len() > 0 { Some(vars[0].num_changes()) } else { None };
        let r = IntVars { vars, cum_changes: cum, all_different: false, common_width };
        proof {
            if r.vars@.len() > 0 {
                if same {
                    assert forall|a: int, b: int| 0 <= a < r.vars@.len() && 0 <= b < r.vars@.len()
                        implies #[trigger] r.vars@[a] == #[trigger] r.vars@[b] by {
                        assert(r.vars@[a] == r.vars@[0]);
                        assert(r.vars@[b] == r.vars@[0]);
                    }
                } else {
                    let a = choose|a: int| 0 <= a < r.vars@.len() && !(#[trigger] r.vars@[a] == r.vars@[0]);
                    assert(!(r.vars@[a] == r.vars@[0]));
                }
            }
        }
        r
    }

    /// `n` variables in `0..=n-1` that must take different values, so that a
    /// solution is a permutation of `0..n`.
    pub fn permutation(n: usize) -> (r: IntVars)
        requires
            n <= i64::MAX,
            n * (if n == 0 { 0int } else { n - 1 }) <= u64::MAX,
        ensures
            r.wf(),
            r.perm(),
            r.view_vars().len() == n,
            forall|i: int| 0 <= i < n ==> (#[trigger] r.view_vars()[i]).lo() == 0
                && r.view_vars()[i].hi() == (if n == 0 { 0int } else { n - 1 }),
    {
        let top: i64 = if n == 0 { 0 } else { (n - 1) as i64 };
        let v = IntVar::new(0, top);
        let mut vars: Vec<IntVar> = Vec::new();
        let mut i: usize = 0;
        while i < n
            invariant
                0 <= i <= n,
                vars@.len() == i,
                v.wf(),
                forall|t: int| 0 <= t < i ==> #[trigger] vars@[t] == v,
                forall|t: int| 0 <= t <= i ==> #[trigger] widths(vars@, t) == t * (v.hi() - v.lo()),
            decreases n - i,
        {
            let ghost before = vars@;
            vars.push(v);
            proof {
                assert forall|t: int| 0 <= t <= i + 1 implies #[trigger] widths(vars@, t) == t * (v.hi() - v.lo()) by {
                    if t <= i {
                        lemma_widths_prefix(before, vars@, t);
                    } else {
                        assert(widths(vars@, t) == widths(vars@, t - 1) + (vars@[t - 1].hi() - vars@[t - 1].lo()));
                        lemma_widths_prefix(before, vars@, t - 1);
                        assert((t - 1) * (v.hi() - v.lo()) + (v.hi() - v.lo()) == t * (v.hi() - v.lo())) by (nonlinear_arith);
                    }
                }
            }
            i += 1;
        }
        let base = Self::new(vars);
        IntVars { all_different: true, ..base }
    }

    /// Whether the variables were built by [`IntVars::permutation`].
    pub fn is_permutation(&self) -> (r: bool)
        ensures
            r == self.perm(),
    {
        self.all_different
    }

    /// The variables.
    pub fn vars(&self) -> (r: &[IntVar])
        ensures
            r@ == self.view_vars(),
    {
        self.vars.as_slice()
    }

    /// The number of variables.
    pub fn len(&self) -> (r: usize)
        ensures
            r == self.view_vars().len(),
    {
        self.vars.len()
    }

    /// Whether every variable has the same range.
    pub fn same_range(&self) -> (r: bool)
        requires
            self.wf(),
        ensures
            r == forall|a: int, b: int| 0 <= a < self.view_vars().len() && 0 <= b < self.view_vars().len()
                ==> #[trigger] self.view_vars()[a] == #[trigger] self.view_vars()[b],
    {
        proof {
            let vs = self.view_vars();
            assert(vs == self.vars@);
            let all = forall|a: int, b: int| 0 <= a < vs.len() && 0 <= b < vs.len() ==> #[trigger] vs[a] == #[trigger] vs[b];
            if vs.len() == 0 {
                assert(all);
            } else if self.common_width.is_some() {
                assert(all);
            } else {
                assert(!all);
            }
        }
        self.common_width.is_some() || self.vars.len() == 0
    }

    /// `lower + upper` when every variable ranges over the same two values.
    pub fn flip_sum(&self) -> (r: Option<i64>)
        requires
            self.wf(),
            self.view_vars().len() > 0 ==> i64::MIN <= self.view_vars()[0].lo() + self.view_vars()[0].hi() <= i64::MAX,
        ensures
            r is Some <==> (self.view_vars().len() > 0
                && (forall|a: int, b: int| 0 <= a < self.view_vars().len() && 0 <= b < self.view_vars().len()
                    ==> #[trigger] self.view_vars()[a] == #[trigger] self.view_vars()[b])
                && self.view_vars()[0].hi() - self.view_vars()[0].lo() == 1),
            r matches Some(s) ==> s == self.view_vars()[0].lo() + self.view_vars()[0].hi(),
    {
        match self.common_width {
            Some(w) => {
                if w == 1 {
                    Some(self.vars[0].lower + self.vars[0].upper)
                } else {
                    None
                }
            },
            None => None,
        }
    }

    /// The total number of single-variable changes.
    pub fn total_changes(&self) -> (r: u64)
        requires
            self.wf(),
        ensures
            r == widths(self.view_vars(), self.view_vars().len() as int),
    {
        if self.cum_changes.len() == 0 {
            0
        } else {
            self.cum_changes[self.cum_changes.len() - 1]
        }
    }

    /// The variable that holds change `r` when the changes of every variable
    /// are laid out in index order: the first `i` whose running total
    /// exceeds `r`.
    pub fn var_of_change(&self, r: u64) -> (i: usize)
        requires
            self.wf(),
            r < widths(self.view_vars(), self.view_vars().len() as int),
        ensures
            i < self.view_vars().len(),
            widths(self.view_vars(), i as int) <= r < widths(self.view_vars(), i + 1),
    {
        proof {
            lemma_widths_mono(self.vars@, self.vars@.len() as int);
        }
        let n = self.cum_changes.len();
        let mut lo: usize = 0;
        let mut hi: usize = n;
        while lo < hi
            invariant
                0 <= lo <= hi <= n,
                n == self.vars@.len(),
                self.wf(),
                forall|t: int| 0 <= t < self.vars@.len() ==> (#[trigger] self.vars@[t]).wf(),
                forall|a: int, b: int| 0 <= a <= b <= self.vars@.len() ==> #[trigger] widths(self.vars@, a) <= #[trigger] widths(self.vars@, b),
                r < widths(self.vars@, n as int),
                widths(self.vars@, lo as int) <= r,
                hi == n || r < widths(self.vars@, hi + 1),
            decreases hi - lo,
        {
            let mid = lo + (hi - lo) / 2;
            if self.cum_changes[mid] <= r {
                lo = mid + 1;
            } else {
                hi = mid;
            }
        }
        proof {
            if lo == n {
                assert(widths(self.vars@, n as int) <= r);
            }
        }
        lo
    }

    /// Where the changes of variable `var` start when every variable's
    /// changes are laid out in index order: the total width of the
    /// variables before it.
    pub fn row_start(&self, var: usize) -> (r: usize)
        requires
            self.wf(),
            var < self.view_vars().len(),
            widths(self.view_vars(), self.view_vars().len() as int) <= usize::MAX,
        ensures
            r == widths(self.view_vars(), var as int),
    {
        proof {
            lemma_widths_mono(self.vars@, self.vars@.len() as int);
            assert(widths(self.vars@, var as int) <= widths(self.vars@, var + 1));
            assert(self.cum_changes@[var as int] == widths(self.vars@, var + 1));
            assert(self.vars@[var as int].wf());
            assert(widths(self.vars@, var + 1) == widths(self.vars@, var as int) + (self.vars@[var as int].hi() - self.vars@[var as int].lo()));
            assert(widths(self.vars@, 0) <= widths(self.vars@, var as int));
        }
        match self.common_width {
            Some(w) => {
                proof {
                    lemma_widths_uniform(self.vars@, var as int);
                    assert(widths(self.vars@, var as int) == var * w);
                }
                var * w as usize
            },
            None => (self.cum_changes[var] - self.vars[var].num_changes()) as usize,
        }
    }

    /// Where the change of `var` from `current` to `value` sits among the
    /// changes laid out by [`IntVars::row_start`]: the values of `var`
    /// other than `current`, in increasing order.
    pub fn change_slot(&self, var: usize, current: i64, value: i64) -> (r: usize)
        requires
            self.wf(),
            var < self.view_vars().len(),
            widths(self.view_vars(), self.view_vars().len() as int) <= usize::MAX,
            self.view_vars()[var as int].lo() <= current <= self.view_vars()[var as int].hi(),
            self.view_vars()[var as int].lo() <= value <= self.view_vars()[var as int].hi(),
            value != current,
        ensures
            r == widths(self.view_vars(), var as int) + (value - self.view_vars()[var as int].lo())
                - (if value > current { 1int } else { 0int }),
    {
        proof {
            lemma_widths_mono(self.vars@, self.vars@.len() as int);
            assert(widths(self.vars@, var + 1) <= widths(self.vars@, self.vars@.len() as int));
        }
        if self.common_width == Some(1u64) {
            proof {
                lemma_widths_uniform(self.vars@, var as int);
                assert(self.vars@[var as int] == self.vars@[0]);
                assert(self.vars@[0].hi() - self.vars@[0].lo() == 1);
                assert(widths(self.vars@, var as int) == var * 1);
            }
            return var;
        }
        let lo = self.vars[var].lower;
        let k: u64 = (value as i128 - lo as i128) as u64;
        let k = if value > current { k - 1 } else { k };
        self.row_start(var) + k as usize
    }

    /// Random values for the variables: a random permutation of `0..len`
    /// when the variables form a permutation, else a uniform draw from each
    /// variable's range.
    pub fn random_values(&self, rng: &mut SmallRng) -> (r: Vec<i64>)
        requires
            self.wf(),
            self.view_vars().len() <= i64::MAX,
        ensures
            r@.len() == self.view_vars().len(),
            !self.perm() ==> forall|i: int| 0 <= i < r@.len() ==>
                (#[trigger] self.view_vars()[i]).lo() <= r@[i] <= self.view_vars()[i].hi(),
            self.perm() ==> exists|p: Seq<usize>| #![trigger p.to_multiset()] {
                &&& p.to_multiset() == index_seq(r@.len()).to_multiset()
                &&& forall|k: int| 0 <= k < r@.len() ==> #[trigger] r@[k] == p[k] as i64
            },
            self.perm() ==> forall|k: int| 0 <= k < r@.len() ==> 0 <= #[trigger] r@[k] < r@.len(),
    {
        let n = self.vars.len();
        if self.all_different {
            let mut idx: Vec<usize> = Vec::new();
            let mut k: usize = 0;
            while k < n
                invariant
                    k <= n,
                    idx@ == index_seq(k as nat),
                decreases n - k,
            {
                idx.push(k);
                k += 1;
                proof {
                    assert(idx@ =~= index_seq(k as nat));
                }
            }
            let ghost base = idx@;
            shuffle(&mut idx, rng);
            let mut values: Vec<i64> = Vec::new();
            let mut t: usize = 0;
            while t < n
                invariant
                    t <= n,
                    n <= i64::MAX,
                    idx@.len() == n,
                    idx@.to_multiset() == base.to_multiset(),
                    base == index_seq(n as nat),
                    values@.len() == t,
                    forall|m: int| 0 <= m < t ==> #[trigger] values@[m] == idx@[m] as i64,
                    forall|m: int| 0 <= m < t ==> 0 <= #[trigger] values@[m] < n,
                decreases n - t,
            {
                let x = idx[t];
                proof {
                    idx@.to_multiset_ensures();
                    base.to_multiset_ensures();
                    assert(idx@[t as int] == x);
                    assert(idx@.contains(x));
                    assert(idx@.to_multiset().count(x) > 0);
                    assert(base.to_multiset().count(x) > 0);
                    assert(base.contains(x));
                    let m = choose|m: int| 0 <= m < base.len() && base[m] == x;
                    assert(x == m as usize);
                }
                values.push(x as i64);
                t += 1;
            }
            proof {
                assert(idx@.to_multiset() == index_seq(values@.len()).to_multiset());
            }
            values
        } else {
            let mut values: Vec<i64> = Vec::new();
            let mut i: usize = 0;
            while i < n
                invariant
                    i <= n,
                    n == self.vars@.len(),
                    self.wf(),
                    values@.len() == i,
                    forall|m: int| 0 <= m < i ==> (#[trigger] self.view_vars()[m]).lo() <= values@[m] <= self.view_vars()[m].hi(),
                decreases n - i,
            {
                let v = self.vars[i];
                proof {
                    assert(self.vars@[i as int].wf());
                }
                let x = between(rng, v.lower, v.upper);
                values.push(x);
                i += 1;
            }
            values
        }
    }

    /// Checks that `values` gives every variable a value in its range, and
    /// different values when the variables form a permutation.
    pub fn check(&self, values: &[i64]) -> (r: Result<(), ValueError>)
        requires
            self.wf(),
        ensures
            r is Ok <==> (values@.len() == self.view_vars().len()
                && (forall|i: int| 0 <= i < values@.len() ==> self.view_vars()[i].lo() <= #[trigger] values@[i] <= self.view_vars()[i].hi())
                && (self.perm() ==> forall|a: int, b: int| 0 <= a < b < values@.len() ==> #[trigger] values@[a] != #[trigger] values@[b])),
            r matches Err(ValueError::WrongLength { .. }) <==> values@.len() != self.view_vars().len(),
    {
        let n = self.vars.len();
        if values.len() != n {
            return Err(ValueError::WrongLength { values: values.len(), vars: n });
        }
        let mut i: usize = 0;
        while i < n
            invariant
                0 <= i <= n,
                n == self.vars@.len(),
                values@.len() == n,
                forall|t: int| 0 <= t < i ==> self.vars@[t].lo() <= #[trigger] values@[t] <= self.vars@[t].hi(),
            decreases n - i,
        {
            if !self.vars[i].contains(values[i]) {
                return Err(ValueError::OutOfRange { index: i, value: values[i] });
            }
            i += 1;
        }
        if self.all_different {
            let mut seen: Vec<bool> = Vec::new();
            let mut m: usize = 0;
            while m < n
                invariant
                    0 <= m <= n,
                    seen@.len() == m,
                    forall|t: int| 0 <= t < m ==> !#[trigger] seen@[t],
                decreases n - m,
            {
                seen.push(false);
                m += 1;
            }
            proof {
                assert forall|x: int| 0 <= x < n implies 0 <= #[trigger] values@[x] < n by {
                    assert(self.vars@[x].lo() <= values@[x] <= self.vars@[x].hi());
                    assert(self.view_vars()[x].lo() == 0 && self.view_vars()[x].hi() < self.view_vars().len());
                }
                assert forall|v: int| 0 <= v < n implies #[trigger] seen@[v] == exists|x: int| 0 <= x < 0 && values@[x] == v by {}
            }
            let mut t: usize = 0;
            while t < n
                invariant
                    0 <= t <= n,
                    n == self.vars@.len(),
                    self.all_different,
                    values@.len() == n,
                    seen@.len() == n,
                    forall|x: int| 0 <= x < n ==> 0 <= #[trigger] values@[x] < n,
                    forall|v: int| 0 <= v < n ==> #[trigger] seen@[v] == exists|x: int| 0 <= x < t && values@[x] == v,
                    forall|a: int, b: int| 0 <= a < b < t ==> #[trigger] values@[a] != #[trigger] values@[b],
                decreases n - t,
            {
                let x = values[t] as usize;
                if seen[x] {
                    proof {
                        assert(x as int == values@[t as int]);
                        let a = choose|a: int| 0 <= a < t && values@[a] == x as int;
                        assert(values@[a] == values@[t as int]);
                    }
                    return Err(ValueError::Repeated { value: values[t] });
                }
                seen.set(x, true);
                proof {
                    assert forall|v: int| 0 <= v < n implies #[trigger] seen@[v] == exists|y: int| 0 <= y < t + 1 && values@[y] == v by {
                        if v == x as int {
                            assert(values@[t as int] == v);
                        } else if exists|y: int| 0 <= y < t + 1 && values@[y] == v {
                            let y = choose|y: int| 0 <= y < t + 1 && values@[y] == v;
                            assert(y != t);
                        }
                    }
                    assert forall|a: int, b: int| 0 <= a < b < t + 1 implies #[trigger] values@[a] != #[trigger] values@[b] by {
                        if b == t {
                            if values@[a] == values@[b] {
                                assert(seen@[values@[a] as int]);
                            }
                        }
                    }
                }
                t += 1;
            }
        }
        Ok(())
    }
}

/// The running width totals grow with the prefix.
proof fn lemma_widths_mono(vars: Seq<IntVar>, n: int)
    requires
        0 <= n <= vars.len(),
        forall|t: int| 0 <= t < vars.len() ==> (#[trigger] vars[t]).wf(),
    ensures
        forall|a: int, b: int| 0 <= a <= b <= n ==> #[trigger] widths(vars, a) <= #[trigger] widths(vars, b),
    decreases n,
{
    if n > 0 {
        lemma_widths_mono(vars, n - 1);
        assert(vars[n - 1].wf());
        assert forall|a: int, b: int| 0 <= a <= b <= n implies #[trigger] widths(vars, a) <= #[trigger] widths(vars, b) by {
            if b == n && a < n {
                assert(widths(vars, a) <= widths(vars, n - 1));
            }
        }
    }
}

/// A width total depends only on the variables it covers.
/// Equal variables of width `w` have `n * w` changes before the `n`-th.
proof fn lemma_widths_uniform(vars: Seq<IntVar>, n: int)
    requires
        0 <= n <= vars.len(),
        forall|a: int, b: int| 0 <= a < vars.len() && 0 <= b < vars.len() ==> #[trigger] vars[a] == #[trigger] vars[b],
    ensures
        vars.len() > 0 ==> widths(vars, n) == n * (vars[0].hi() - vars[0].lo()),
    decreases n,
{
    if n > 0 {
        lemma_widths_uniform(vars, n - 1);
        assert(vars[n - 1] == vars[0]);
        assert(widths(vars, n) == widths(vars, n - 1) + (vars[n - 1].hi() - vars[n - 1].lo()));
        let w = vars[0].hi() - vars[0].lo();
        assert((n - 1) * w + w == n * w) by (nonlinear_arith);
    } else {
        let w = if vars.len() > 0 { vars[0].hi() - vars[0].lo() } else { 0 };
        assert(0 * w == 0) by (nonlinear_arith);
    }
}

proof fn lemma_widths_prefix(s: Seq<IntVar>, t: Seq<IntVar>, n: int)
    requires
        0 <= n <= s.len(),
        n <= t.len(),
        forall|i: int| 0 <= i < n ==> #[trigger] s[i] == t[i],
    ensures
        widths(s, n) == widths(t, n),
    decreases n,
{
    if n > 0 {
        lemma_widths_prefix(s, t, n - 1);
    }
}

} // verus!
