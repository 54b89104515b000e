//! Canonical recipes: bags of exactly eight pickups.

use vstd::prelude::*;
use vstd::pervasive::VecAdditionalExecFns;
use vstd::relations::total_ordering;
use vstd::seq_lib::lemma_sorted_unique;
use crate::pickup::Pickup;

verus! {

/// Non-decreasing ordinal order.
pub open spec fn sorted_pickups(s: Seq<Pickup>) -> bool {
    forall|i: int, j: int| 0 <= i < j < s.len() ==> s[i].ord() <= s[j].ord()
}

/// The ordinal order as a relation, for vstd's ordering lemmas.
pub open spec fn ord_leq() -> spec_fn(Pickup, Pickup) -> bool {
    |a: Pickup, b: Pickup| a.ord() <= b.ord()
}

/// A recipe in canonical form: exactly eight pickups stored in
/// non-decreasing ordinal order. Two bags with the same contents always
/// canonicalize to the same stored sequence, so recipe equality is bag
/// equality.
#[derive(Debug, PartialEq, Eq, Hash)]
pub struct InternalPickups {
    slots: Vec<Pickup>,
}

impl View for InternalPickups {
    type V = Seq<Pickup>;

    closed spec fn view(&self) -> Seq<Pickup> {
        self.slots@
    }
}

impl InternalPickups {
    /// Canonical form: eight slots, sorted.
    pub open spec fn wf(self) -> bool {
        self@.len() == 8 && sorted_pickups(self@)
    }

    /// Canonicalize a bag of pickups given as a vector of eight.
    pub fn from_vec(pickups: Vec<Pickup>) -> (r: InternalPickups)
        requires
            pickups@.len() == 8,
        ensures
            r.wf(),
            r@.to_multiset() == pickups@.to_multiset(),
    {
        InternalPickups { slots: sort_pickups(pickups) }
    }

    /// Canonicalize a bag of eight pickups.
    pub fn new(pickups: [Pickup; 8]) -> (r: InternalPickups)
        ensures
            r.wf(),
            r@.to_multiset() == pickups@.to_multiset(),
    {
        let mut v: Vec<Pickup> = Vec::new();
        let mut i: usize = 0;
        while i < 8
            invariant
                i <= 8,
                v@ =~= pickups@.subrange(0, i as int),
            decreases 8 - i,
        {
            v.push(pickups[i]);
            i = i + 1;
        }
        proof {
            assert(v@ =~= pickups@);
        }
        let sorted = sort_pickups(v);
        InternalPickups { slots: sorted }
    }

    /// The pickups of this recipe, in canonical order.
    pub fn slots(&self) -> (r: &Vec<Pickup>)
        ensures
            r@ == self@,
    {
        &self.slots
    }

    /// The pickup in a given slot.
    pub fn slot(&self, i: usize) -> (p: Pickup)
        requires
            i < self@.len(),
        ensures
            p == self@[i as int],
    {
        self.slots[i]
    }

    /// Number of slots (eight for every canonical recipe).
    pub fn len(&self) -> (n: usize)
        ensures
            n == self@.len(),
    {
        self.slots.len()
    }

    /// Whether two recipes hold the same pickups.
    pub fn same_as(&self, other: &InternalPickups) -> (r: bool)
        ensures
            r <==> self@ == other@,
    {
        if self.slots.len() != other.slots.len() {
            proof {
                assert(self@ != other@);
            }
            return false;
        }
        let n = self.slots.len();
        let mut i: usize = 0;
        while i < n
            invariant
                i <= n,
                n == self@.len(),
                n == other@.len(),
                forall|k: int| 0 <= k < i ==> self@[k] == other@[k],
            decreases n - i,
        {
            let a = self.slots[i].ordinal();
            let b = other.slots[i].ordinal();
            if a != b {
                proof {
                    assert(self@[i as int] != other@[i as int]);
                }
                return false;
            }
            proof {
                crate::pickup::lemma_ord_injective(self@[i as int], other@[i as int]);
            }
            i = i + 1;
        }
        proof {
            assert(self@ =~= other@);
        }
        true
    }
}

impl Clone for InternalPickups {
    /// An exact copy: the clone holds the same pickups in the same order.
    fn clone(&self) -> (r: Self)
        ensures
            r@ == self@,
    {
        let n = self.slots.len();
        let mut v: Vec<Pickup> = Vec::new();
        let mut i: usize = 0;
        while i < n
            invariant
                i <= n,
                n == self.slots@.len(),
                v@ =~= self.slots@.subrange(0, i as int),
            decreases n - i,
        {
            v.push(self.slots[i]);
            i = i + 1;
        }
        proof {
            assert(v@ =~= self.slots@);
        }
        InternalPickups { slots: v }
    }
}

/// Sort a bag of pickups into non-decreasing ordinal order, keeping its
/// contents.
pub fn sort_pickups(v: Vec<Pickup>) -> (r: Vec<Pickup>)
    ensures
        r@.len() == v@.len(),
        r@.to_multiset() == v@.to_multiset(),
        sorted_pickups(r@),
{
    let ghost orig = v@;
    let mut v = v;
    let n = v.len();
    let mut i: usize = 0;
    while i < n
        invariant
            i <= n,
            n == v@.len(),
            v@.to_multiset() == orig.to_multiset(),
            sorted_pickups(v@.subrange(0, i as int)),
            forall|a: int, b: int| 0 <= a < i <= b < n ==> v@[a].ord() <= v@[b].ord(),
        decreases n - i,
    {
        let mut j: usize = i;
        while j < n
            invariant
                i <= j <= n,
                i < n,
                n == v@.len(),
                v@.to_multiset() == orig.to_multiset(),
                sorted_pickups(v@.subrange(0, i as int)),
                forall|a: int, b: int| 0 <= a < i <= b < n ==> v@[a].ord() <= v@[b].ord(),
                forall|t: int| i <= t < j ==> v@[i as int].ord() <= v@[t].ord(),
            decreases n - j,
        {
            let oj = v[j].ordinal();
            let oi = v[i].ordinal();
            if oj < oi {
                let ghost before = v@;
                let vi = v[i];
                let vj = v[j];
                v.set(i, vj);
                v.set(j, vi);
                proof {
                    broadcast use vstd::multiset::group_multiset_axioms;
                    broadcast use vstd::seq_lib::group_to_multiset_ensures;

                    assert(i != j);
                    let mid = before.update(i as int, vj);
                    assert(v@ == mid.update(j as int, vi));
                    vstd::seq_lib::to_multiset_update(before, i as int, vj);
                    vstd::seq_lib::to_multiset_update(mid, j as int, vi);
                    assert(mid[j as int] == vj);
                    assert(before.contains(vi)) by {
                        assert(before[i as int] == vi);
                    }
                    assert(before.contains(vj)) by {
                        assert(before[j as int] == vj);
                    }
                    assert(v@.to_multiset() =~= before.to_multiset());
                    assert(v@.subrange(0, i as int) =~= before.subrange(0, i as int));
                }
            }
            j = j + 1;
        }
        proof {
            let vi = v@.subrange(0, i as int + 1);
            assert forall|a: int, b: int| 0 <= a < b < vi.len() implies vi[a].ord() <= vi[b].ord() by {
                assert(vi[a] == v@[a]);
                assert(vi[b] == v@[b]);
            }
        }
        i = i + 1;
    }
    proof {
        assert(v@.subrange(0, n as int) =~= v@);
    }
    v
}

/// Sorted sequences with the same contents are identical: canonical form is
/// unique.
pub proof fn lemma_canonical_unique(x: Seq<Pickup>, y: Seq<Pickup>)
    requires
        sorted_pickups(x),
        sorted_pickups(y),
        x.to_multiset() == y.to_multiset(),
    ensures
        x == y,
{
    let leq = ord_leq();
    assert(total_ordering(leq)) by {
        assert forall|a: Pickup, b: Pickup| #[trigger] leq(a, b) && leq(b, a) implies a == b by {
            crate::pickup::lemma_ord_injective(a, b);
        }
    }
    assert(vstd::relations::sorted_by(x, leq)) by {
        assert forall|i: int, j: int| 0 <= i < j < x.len() implies #[trigger] leq(x[i], x[j]) by {
            assert(x[i].ord() <= x[j].ord());
        }
    }
    assert(vstd::relations::sorted_by(y, leq)) by {
        assert forall|i: int, j: int| 0 <= i < j < y.len() implies #[trigger] leq(y[i], y[j]) by {
            assert(y[i].ord() <= y[j].ord());
        }
    }
    lemma_sorted_unique(x, y, leq);
    assert(x =~= y);
}

} // verus!
