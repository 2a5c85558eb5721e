//! An optional index of the variables whose gain is negative, maintained
//! incrementally as gains change.

use vstd::prelude::*;

verus! {

/// Marks a variable that is not in the index.
pub const ABSENT: usize = usize::MAX;

/// The set of variables with a negative gain, kept as a list with a position
/// table for O(1) insertion and removal. It starts disabled and empty.
#[derive(Debug, Clone)]
pub struct GainIndex {
    enabled: bool,
    members: Vec<usize>,
    pos: Vec<usize>,
}

impl GainIndex {
    /// Whether the index is maintained.
    pub closed spec fn is_on(self) -> bool {
        self.enabled
    }

    /// The indexed variables, in list order.
    pub closed spec fn members(self) -> Seq<usize> {
        self.members@
    }

    /// The number of variables the index can hold.
    pub closed spec fn capacity(self) -> nat {
        self.pos@.len()
    }

    /// The representation invariant.
    pub closed spec fn wf(self) -> bool {
        &&& self.pos@.len() < usize::MAX
        &&& forall|k: int| 0 <= k < self.members@.len() ==> #[trigger] self.members@[k] < self.pos@.len()
        &&& forall|k: int| 0 <= k < self.members@.len() ==> self.pos@[#[trigger] self.members@[k] as int] == k
        &&& forall|v: int| 0 <= v < self.pos@.len() && #[trigger] self.pos@[v] != ABSENT ==>
            self.pos@[v] < self.members@.len() && self.members@[self.pos@[v] as int] == v
        &&& !self.enabled ==> self.members@.len() == 0
    }

    /// `v` is indexed.
    pub open spec fn has(self, v: int) -> bool {
        exists|k: int| 0 <= k < self.members().len() && self.members()[k] as int == v
    }

    /// The index holds exactly the variables below `n` with a negative gain.
    pub open spec fn matches(self, gain: Seq<i32>) -> bool {
        &&& self.wf()
        &&& self.is_on() ==> self.capacity() == gain.len()
        &&& self.is_on() ==> forall|v: int| 0 <= v < gain.len() ==> (self.has(v) <==> #[trigger] gain[v] < 0)
        &&& !self.is_on() ==> self.members().len() == 0
    }

    /// A disabled, empty index.
    pub fn new() -> (r: GainIndex)
        ensures
            r.wf(),
            !r.is_on(),
            r.members().len() == 0,
            r.capacity() == 0,
    {
        GainIndex { enabled: false, members: Vec::new(), pos: Vec::new() }
    }

    /// A copy of the index.
    pub fn duplicate(&self) -> (r: GainIndex)
        ensures
            r.is_on() == self.is_on(),
            r.members() == self.members(),
            r.capacity() == self.capacity(),
            self.wf() ==> r.wf(),
    {
        GainIndex {
            enabled: self.enabled,
            members: crate::qubo_solution::copy_vec(&self.members),
            pos: crate::qubo_solution::copy_vec(&self.pos),
        }
    }

    /// Whether the index is maintained.
    pub fn is_enabled(&self) -> (r: bool)
        ensures
            r == self.is_on(),
    {
        self.enabled
    }

    /// Whether no variable is indexed.
    pub fn is_empty(&self) -> (r: bool)
        ensures
            r == (self.members().len() == 0),
    {
        self.members.len() == 0
    }

    /// The number of indexed variables.
    pub fn len(&self) -> (r: usize)
        ensures
            r == self.members().len(),
    {
        self.members.len()
    }

    /// The indexed variables.
    pub fn as_slice(&self) -> (r: &[usize])
        ensures
            r@ == self.members(),
    {
        self.members.as_slice()
    }

    /// Whether `v` is indexed.
    pub fn contains(&self, v: usize) -> (r: bool)
        requires
            self.wf(),
        ensures
            r == self.has(v as int),
    {
        if v < self.pos.len() && self.pos[v] != ABSENT {
            proof {
                assert(self.members()[self.pos@[v as int] as int] as int == v);
            }
            true
        } else {
            proof {
                if self.has(v as int) {
                    let k = choose|k: int| 0 <= k < self.members().len() && self.members()[k] as int == v;
                    assert(self.members()[k] == self.members@[k]);
                    assert(self.members.len() == self.members@.len());
                    assert(self.members@[k] < self.pos@.len());
                    assert(self.pos@[self.members@[k] as int] == k);
                }
            }
            false
        }
    }

    /// Enables the index over `gain`, holding every `v` with `gain[v] < 0`,
    /// in increasing order. A no-op when already enabled.
    pub fn enable(&mut self, gain: &[i32])
        requires
            old(self).wf(),
            gain@.len() < usize::MAX,
        ensures
            final(self).wf(),
            final(self).is_on(),
            old(self).is_on() ==> *final(self) == *old(self),
            !old(self).is_on() ==> final(self).capacity() == gain@.len(),
            !old(self).is_on() ==> forall|v: int| 0 <= v < gain@.len() ==> (final(self).has(v) <==> #[trigger] gain@[v] < 0),
            !old(self).is_on() ==> forall|a: int, b: int| 0 <= a < b < final(self).members().len()
                ==> final(self).members()[a] < final(self).members()[b],
    {
        if self.enabled {
            return;
        }
        let n = gain.len();
        let mut members: Vec<usize> = Vec::new();
        let mut pos: Vec<usize> = Vec::new();
        let mut v: usize = 0;
        while v < n
            invariant
                0 <= v <= n,
                n == gain@.len(),
                n < usize::MAX,
                pos@.len() == v,
                members@.len() <= v,
                forall|k: int| 0 <= k < members@.len() ==> #[trigger] members@[k] < v,
                forall|k: int| 0 <= k < members@.len() ==> pos@[#[trigger] members@[k] as int] == k,
                forall|w: int| 0 <= w < v && #[trigger] pos@[w] != ABSENT ==>
                    pos@[w] < members@.len() && members@[pos@[w] as int] == w,
                forall|w: int| 0 <= w < v ==> (#[trigger] pos@[w] != ABSENT <==> gain@[w] < 0),
                forall|a: int, b: int| 0 <= a < b < members@.len() ==> members@[a] < members@[b],
            decreases n - v,
        {
            if gain[v] < 0 {
                pos.push(members.len());
                members.push(v);
            } else {
                pos.push(ABSENT);
            }
            v += 1;
        }
        self.enabled = true;
        self.members = members;
        self.pos = pos;
        proof {
            assert forall|w: int| 0 <= w < n implies (self.has(w) <==> #[trigger] gain@[w] < 0) by {
                if self.has(w) {
                    let k = choose|k: int| 0 <= k < self.members().len() && self.members()[k] as int == w;
                    assert(self.pos@[self.members@[k] as int] == k);
                }
                if gain@[w] < 0 {
                    assert(self.members()[self.pos@[w] as int] as int == w);
                }
            }
        }
    }

    /// Records that `v`'s membership goes from `was` to `now`. A no-op when
    /// the index is disabled.
    pub fn update(&mut self, v: usize, was: bool, now: bool)
        requires
            old(self).wf(),
            old(self).is_on() ==> v < old(self).capacity(),
            old(self).is_on() ==> (was <==> old(self).has(v as int)),
        ensures
            final(self).wf(),
            final(self).is_on() == old(self).is_on(),
            final(self).capacity() == old(self).capacity(),
            !old(self).is_on() ==> *final(self) == *old(self),
            old(self).is_on() ==> forall|w: int| #[trigger] final(self).has(w)
                == (if w == v as int { now } else { old(self).has(w) }),
    {
        if !self.enabled {
            return;
        }
        proof {
            if was {
                let k = choose|k: int| 0 <= k < self.members().len() && self.members()[k] as int == v;
                assert(self.pos@[self.members@[k] as int] == k);
            } else {
                if self.pos@[v as int] != ABSENT {
                    assert(self.members()[self.pos@[v as int] as int] as int == v);
                    assert(self.has(v as int));
                }
            }
        }
        if was && !now {
            // Move the last member into `v`'s slot.
            let k = self.pos[v];
            let last = self.members.len() - 1;
            let moved = self.members[last];
            let ghost old_members = self.members@;
            let ghost old_pos = self.pos@;
            self.members.set(k, moved);
            self.members.pop();
            self.pos.set(moved, k);
            self.pos.set(v, ABSENT);
            proof {
                assert forall|kk: int| 0 <= kk < self.members@.len() implies self.pos@[#[trigger] self.members@[kk] as int] == kk by {
                    if kk == k {
                        assert(self.members@[kk] == moved);
                    } else {
                        assert(self.members@[kk] == old_members[kk]);
                        assert(old_members[kk] != v);
                        assert(old_members[kk] != moved) by {
                            assert(old_pos[moved as int] == last);
                        }
                    }
                }
                assert forall|w: int| 0 <= w < self.pos@.len() && #[trigger] self.pos@[w] != ABSENT implies
                    self.pos@[w] < self.members@.len() && self.members@[self.pos@[w] as int] == w by {
                    if w != v && w != moved {
                        assert(old_pos[w] != last) by {
                            assert(old_members[last as int] == moved);
                        }
                        assert(old_pos[w] != k);
                    }
                }
                assert forall|w: int| #[trigger] self.has(w) == (if w == v as int { now } else { old(self).has(w) }) by {
                    if self.has(w) {
                        let kk = choose|kk: int| 0 <= kk < self.members().len() && self.members()[kk] as int == w;
                        if kk == k {
                            assert(old_members[last as int] as int == w);
                        } else {
                            assert(old_members[kk] as int == w);
                        }
                        assert(w != v as int);
                    }
                    if w != v as int && old(self).has(w) {
                        let kk = choose|kk: int| 0 <= kk < old_members.len() && old_members[kk] as int == w;
                        if kk == last {
                            assert(self.members()[k as int] as int == w);
                        } else {
                            assert(kk != k);
                            assert(self.members()[kk] as int == w);
                        }
                    }
                }
            }
        } else if !was && now {
            let ghost old_members = self.members@;
            let ghost old_pos = self.pos@;
            let k = self.members.len();
            self.members.push(v);
            self.pos.set(v, k);
            proof {
                assert forall|kk: int| 0 <= kk < self.members@.len() implies self.pos@[#[trigger] self.members@[kk] as int] == kk by {
                    if kk < k {
                        assert(old_members[kk] != v);
                    }
                }
                assert(self.members@ == old_members.push(v));
                assert forall|w: int| #[trigger] self.has(w) == (if w == v as int { now } else { old(self).has(w) }) by {
                    if self.has(w) && w != v as int {
                        let kk = choose|kk: int| 0 <= kk < self.members().len() && self.members()[kk] as int == w;
                        assert(old_members[kk] as int == w);
                    }
                    if w != v as int && old(self).has(w) {
                        let kk = choose|kk: int| 0 <= kk < old_members.len() && old_members[kk] as int == w;
                        assert(self.members()[kk] as int == w);
                    }
                    if w == v as int {
                        assert(self.members()[k as int] as int == v);
                    }
                }
            }
        }
    }
}

} // verus!
