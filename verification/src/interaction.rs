//! Which variables of a polynomial formula interact: two variables do when
//! a monomial of the objective names both, or when one constraint names
//! both anywhere, since a constraint's penalty is not linear.

use vstd::prelude::*;
use crate::sorted::{strictly_sorted, insert_unique_sorted};
use crate::qubo_solution::copy_vec;

verus! {

/// `vars` names both `v` and `w`, which differ.
pub open spec fn linked(vars: Seq<usize>, v: int, w: int) -> bool {
    v != w && (exists|a: int| 0 <= a < vars.len() && vars[a] == v) && (exists|b: int| 0 <= b < vars.len() && vars[b] == w)
}

/// Every variable that some monomial of a constraint names.
pub open spec fn constraint_vars(monomials: Seq<Seq<usize>>) -> Set<usize> {
    Set::new(|x: usize| exists|m: int, a: int| 0 <= m < monomials.len() && 0 <= a < monomials[m].len() && monomials[m][a] == x)
}

/// `v` and `w` interact: a monomial of the objective names both, or a
/// constraint names both.
pub open spec fn interacts(objective: Seq<Seq<usize>>, constraints: Seq<Seq<Seq<usize>>>, v: int, w: int) -> bool {
    ||| exists|m: int| 0 <= m < objective.len() && #[trigger] linked(objective[m], v, w)
    ||| exists|c: int| 0 <= c < constraints.len() && v != w
        && #[trigger] constraint_vars(constraints[c]).contains(v as usize) && constraint_vars(constraints[c]).contains(w as usize)
}

/// The variables that `v` interacts with.
pub open spec fn interaction_set(objective: Seq<Seq<usize>>, constraints: Seq<Seq<Seq<usize>>>, v: int) -> Set<usize> {
    Set::new(|w: usize| interacts(objective, constraints, v, w as int))
}

/// The views of a vector of vectors.
pub open spec fn views(vs: Seq<Vec<usize>>) -> Seq<Seq<usize>> {
    Seq::new(vs.len(), |k: int| vs[k]@)
}

/// The views of the constraints' monomials.
pub open spec fn views2(vs: Seq<Vec<Vec<usize>>>) -> Seq<Seq<Seq<usize>>> {
    Seq::new(vs.len(), |k: int| views(vs[k]@))
}

/// Every variable named is below `n`.
pub open spec fn names_below(objective: Seq<Seq<usize>>, constraints: Seq<Seq<Seq<usize>>>, n: int) -> bool {
    &&& forall|m: int, a: int| 0 <= m < objective.len() && 0 <= a < objective[m].len() ==> #[trigger] objective[m][a] < n
    &&& forall|c: int, m: int, a: int| 0 <= c < constraints.len() && 0 <= m < constraints[c].len() && 0 <= a < constraints[c][m].len()
        ==> #[trigger] constraints[c][m][a] < n
}

/// For each of the variables `0..n`, the variables it interacts with, in
/// increasing order. The objective and the constraints are given by the
/// variables of their monomials.
pub fn interaction_neighbors(objective: &Vec<Vec<usize>>, constraints: &Vec<Vec<Vec<usize>>>, n: usize) -> (r: Vec<Vec<usize>>)
    requires
        names_below(views(objective@), views2(constraints@), n as int),
    ensures
        r@.len() == n,
        forall|v: int| 0 <= v < n ==> strictly_sorted(#[trigger] r@[v]@),
        forall|v: int| 0 <= v < n ==> (#[trigger] r@[v]@).to_set() == interaction_set(views(objective@), views2(constraints@), v),
{
    let ghost obj = views(objective@);
    let ghost cons = views2(constraints@);
    let mut nbrs: Vec<Vec<usize>> = Vec::new();
    let mut k: usize = 0;
    while k < n
        invariant
            k <= n,
            nbrs@.len() == k,
            forall|v: int| 0 <= v < k ==> (#[trigger] nbrs@[v])@.len() == 0,
        decreases n - k,
    {
        nbrs.push(Vec::new());
        k += 1;
    }
    proof {
        assert forall|v: int| 0 <= v < n implies strictly_sorted(#[trigger] nbrs@[v]@) && nbrs@[v]@.to_set() =~= Set::<usize>::empty() by {
            assert(nbrs@[v]@.len() == 0);
        }
    }
    let mut m: usize = 0;
    while m < objective.len()
        invariant
            m <= objective@.len(),
            obj == views(objective@),
            cons == views2(constraints@),
            names_below(obj, cons, n as int),
            nbrs@.len() == n,
            forall|v: int| 0 <= v < n ==> strictly_sorted(#[trigger] nbrs@[v]@),
            forall|v: int| 0 <= v < n ==> (#[trigger] nbrs@[v]@).to_set() == Set::new(|w: usize|
                exists|mm: int| 0 <= mm < m && #[trigger] linked(obj[mm], v, w as int)),
        decreases objective@.len() - m,
    {
        let ghost before = nbrs@;
        proof {
            assert(obj[m as int] == objective@[m as int]@);
        }
        link(&mut nbrs, &objective[m], n);
        proof {
            assert forall|v: int| 0 <= v < n implies (#[trigger] nbrs@[v]@).to_set() == Set::new(|w: usize|
                exists|mm: int| 0 <= mm < m + 1 && #[trigger] linked(obj[mm], v, w as int)) by {
                assert forall|w: usize| nbrs@[v]@.to_set().contains(w) <==>
                    exists|mm: int| 0 <= mm < m + 1 && #[trigger] linked(obj[mm], v, w as int) by {
                    if linked(obj[m as int], v, w as int) {
                    }
                }
                assert(nbrs@[v]@.to_set() =~= Set::new(|w: usize|
                    exists|mm: int| 0 <= mm < m + 1 && #[trigger] linked(obj[mm], v, w as int)));
            }
        }
        m += 1;
    }
    let mut c: usize = 0;
    while c < constraints.len()
        invariant
            c <= constraints@.len(),
            m == objective@.len(),
            obj == views(objective@),
            cons == views2(constraints@),
            names_below(obj, cons, n as int),
            nbrs@.len() == n,
            forall|v: int| 0 <= v < n ==> strictly_sorted(#[trigger] nbrs@[v]@),
            forall|v: int| 0 <= v < n ==> (#[trigger] nbrs@[v]@).to_set() == Set::new(|w: usize|
                (exists|mm: int| 0 <= mm < obj.len() && #[trigger] linked(obj[mm], v, w as int))
                || exists|cc: int| 0 <= cc < c && v != w
                    && #[trigger] constraint_vars(cons[cc]).contains(v as usize) && constraint_vars(cons[cc]).contains(w)),
        decreases constraints@.len() - c,
    {
        let vars = constraint_var_list(&constraints[c], Ghost(cons[c as int]));
        proof {
            assert forall|a: int| 0 <= a < vars@.len() implies #[trigger] vars@[a] < n by {
                assert(vars@.to_set().contains(vars@[a]));
                let (mi, ai) = choose|mi: int, ai: int| 0 <= mi < cons[c as int].len() && 0 <= ai < cons[c as int][mi].len()
                    && cons[c as int][mi][ai] == vars@[a];
                assert(cons[c as int][mi][ai] < n);
            }
        }
        link(&mut nbrs, &vars, n);
        proof {
            assert forall|v: int| 0 <= v < n implies (#[trigger] nbrs@[v]@).to_set() == Set::new(|w: usize|
                (exists|mm: int| 0 <= mm < obj.len() && #[trigger] linked(obj[mm], v, w as int))
                || exists|cc: int| 0 <= cc < c + 1 && v != w
                    && #[trigger] constraint_vars(cons[cc]).contains(v as usize) && constraint_vars(cons[cc]).contains(w)) by {
                assert forall|w: usize| linked(vars@, v, w as int) <==>
                    (v != w && constraint_vars(cons[c as int]).contains(v as usize) && constraint_vars(cons[c as int]).contains(w)) by {
                    if v != w && constraint_vars(cons[c as int]).contains(v as usize) && constraint_vars(cons[c as int]).contains(w) {
                        assert(vars@.to_set().contains(v as usize));
                        assert(vars@.to_set().contains(w));
                    }
                    if linked(vars@, v, w as int) {
                        let a = choose|a: int| 0 <= a < vars@.len() && vars@[a] == v;
                        let b = choose|b: int| 0 <= b < vars@.len() && vars@[b] == w;
                        assert(vars@.to_set().contains(vars@[a]));
                        assert(vars@.to_set().contains(vars@[b]));
                    }
                }
                assert(nbrs@[v]@.to_set() =~= Set::new(|w: usize|
                    (exists|mm: int| 0 <= mm < obj.len() && #[trigger] linked(obj[mm], v, w as int))
                    || exists|cc: int| 0 <= cc < c + 1 && v != w
                        && #[trigger] constraint_vars(cons[cc]).contains(v as usize) && constraint_vars(cons[cc]).contains(w)));
            }
        }
        c += 1;
    }
    proof {
        assert forall|v: int| 0 <= v < n implies (#[trigger] nbrs@[v]@).to_set() == interaction_set(obj, cons, v) by {
            assert(nbrs@[v]@.to_set() =~= interaction_set(obj, cons, v));
        }
    }
    nbrs
}

/// The variables of a constraint, once each, in increasing order.
fn constraint_var_list(monomials: &Vec<Vec<usize>>, Ghost(view): Ghost<Seq<Seq<usize>>>) -> (r: Vec<usize>)
    requires
        view == views(monomials@),
    ensures
        strictly_sorted(r@),
        r@.to_set() == constraint_vars(view),
{
    let mut r: Vec<usize> = Vec::new();
    let mut m: usize = 0;
    while m < monomials.len()
        invariant
            m <= monomials@.len(),
            view == views(monomials@),
            strictly_sorted(r@),
            r@.to_set() == Set::new(|x: usize| exists|mm: int, a: int| 0 <= mm < m && 0 <= a < view[mm].len() && view[mm][a] == x),
        decreases monomials@.len() - m,
    {
        let mono = &monomials[m];
        let mut a: usize = 0;
        while a < mono.len()
            invariant
                a <= mono@.len(),
                m < monomials@.len(),
                view == views(monomials@),
                mono@ == view[m as int],
                strictly_sorted(r@),
                r@.to_set() == Set::new(|x: usize| (exists|mm: int, aa: int| 0 <= mm < m && 0 <= aa < view[mm].len() && view[mm][aa] == x)
                    || exists|aa: int| 0 <= aa < a && view[m as int][aa] == x),
            decreases mono@.len() - a,
        {
            let x = mono[a];
            insert_unique_sorted(&mut r, x);
            a += 1;
            proof {
                assert(r@.to_set() =~= Set::new(|x: usize| (exists|mm: int, aa: int| 0 <= mm < m && 0 <= aa < view[mm].len() && view[mm][aa] == x)
                    || exists|aa: int| 0 <= aa < a && view[m as int][aa] == x));
            }
        }
        m += 1;
        proof {
            assert(r@.to_set() =~= Set::new(|x: usize| exists|mm: int, aa: int| 0 <= mm < m && 0 <= aa < view[mm].len() && view[mm][aa] == x));
        }
    }
    proof {
        assert(r@.to_set() =~= constraint_vars(view));
    }
    r
}

/// Records every pair of different variables that `vars` names as
/// neighbours of each other.
fn link(nbrs: &mut Vec<Vec<usize>>, vars: &Vec<usize>, n: usize)
    requires
        old(nbrs)@.len() == n,
        forall|a: int| 0 <= a < vars@.len() ==> #[trigger] vars@[a] < n,
        forall|v: int| 0 <= v < n ==> strictly_sorted(#[trigger] old(nbrs)@[v]@),
    ensures
        final(nbrs)@.len() == n,
        forall|v: int| 0 <= v < n ==> strictly_sorted(#[trigger] final(nbrs)@[v]@),
        forall|v: int| 0 <= v < n ==> (#[trigger] final(nbrs)@[v]@).to_set()
            == old(nbrs)@[v]@.to_set().union(Set::new(|w: usize| linked(vars@, v, w as int))),
{
    let ghost start = nbrs@;
    let mut a: usize = 0;
    while a < vars.len()
        invariant
            a <= vars@.len(),
            nbrs@.len() == n,
            start.len() == n,
            forall|t: int| 0 <= t < vars@.len() ==> #[trigger] vars@[t] < n,
            forall|v: int| 0 <= v < n ==> strictly_sorted(#[trigger] nbrs@[v]@),
            forall|v: int| 0 <= v < n ==> (#[trigger] nbrs@[v]@).to_set() == start[v]@.to_set().union(Set::new(|w: usize|
                v != w && (exists|aa: int| 0 <= aa < a && vars@[aa] == v) && (exists|b: int| 0 <= b < vars@.len() && vars@[b] == w))),
        decreases vars@.len() - a,
    {
        let va = vars[a];
        let mut b: usize = 0;
        while b < vars.len()
            invariant
                a < vars@.len(),
                b <= vars@.len(),
                va == vars@[a as int],
                nbrs@.len() == n,
                start.len() == n,
                forall|t: int| 0 <= t < vars@.len() ==> #[trigger] vars@[t] < n,
                forall|v: int| 0 <= v < n ==> strictly_sorted(#[trigger] nbrs@[v]@),
                forall|v: int| 0 <= v < n ==> (#[trigger] nbrs@[v]@).to_set() == start[v]@.to_set().union(Set::new(|w: usize|
                    v != w && (((exists|aa: int| 0 <= aa < a && vars@[aa] == v) && (exists|bb: int| 0 <= bb < vars@.len() && vars@[bb] == w))
                        || (v == va && exists|bb: int| 0 <= bb < b && vars@[bb] == w)))),
            decreases vars@.len() - b,
        {
            let vb = vars[b];
            let ghost before = nbrs@;
            if va != vb {
                let mut row = copy_vec(&nbrs[va]);
                insert_unique_sorted(&mut row, vb);
                nbrs.set(va, row);
            }
            b += 1;
            proof {
                assert forall|v: int| 0 <= v < n implies (#[trigger] nbrs@[v]@).to_set() == start[v]@.to_set().union(Set::new(|w: usize|
                    v != w && (((exists|aa: int| 0 <= aa < a && vars@[aa] == v) && (exists|bb: int| 0 <= bb < vars@.len() && vars@[bb] == w))
                        || (v == va && exists|bb: int| 0 <= bb < b && vars@[bb] == w)))) by {
                    if v != va {
                        assert(nbrs@[v] == before[v]);
                    }
                    assert(nbrs@[v]@.to_set() =~= start[v]@.to_set().union(Set::new(|w: usize|
                        v != w && (((exists|aa: int| 0 <= aa < a && vars@[aa] == v) && (exists|bb: int| 0 <= bb < vars@.len() && vars@[bb] == w))
                            || (v == va && exists|bb: int| 0 <= bb < b && vars@[bb] == w)))));
                }
            }
        }
        a += 1;
        proof {
            assert forall|v: int| 0 <= v < n implies (#[trigger] nbrs@[v]@).to_set() == start[v]@.to_set().union(Set::new(|w: usize|
                v != w && (exists|aa: int| 0 <= aa < a && vars@[aa] == v) && (exists|b: int| 0 <= b < vars@.len() && vars@[b] == w))) by {
                assert(nbrs@[v]@.to_set() =~= start[v]@.to_set().union(Set::new(|w: usize|
                    v != w && (exists|aa: int| 0 <= aa < a && vars@[aa] == v) && (exists|b: int| 0 <= b < vars@.len() && vars@[b] == w))));
            }
        }
    }
    proof {
        assert forall|v: int| 0 <= v < n implies (#[trigger] nbrs@[v]@).to_set()
            == start[v]@.to_set().union(Set::new(|w: usize| linked(vars@, v, w as int))) by {
            assert(nbrs@[v]@.to_set() =~= start[v]@.to_set().union(Set::new(|w: usize| linked(vars@, v, w as int))));
        }
    }
}

} // verus!
