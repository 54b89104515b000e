//! The incremental recipe index: held pickup counts, and per item the set
//! of currently craftable recipes, kept exact across single-unit changes.
//!
//! The standing invariant is the brute-force one: an item's recipe set
//! holds exactly the canonical eight-pickup bags that fit under the held
//! counts and craft to that item. Each single-unit change touches only the
//! recipes whose count of the changed pickup sits exactly at the new (or
//! old) value, and those are enumerated through the sub-bag walk.

use vstd::prelude::*;
use vstd::pervasive::VecAdditionalExecFns;
use vstd::multiset::Multiset;
use crate::pickup::Pickup;
use crate::recipe::{InternalPickups, sorted_pickups};
use crate::crafter::{count_pk, spec_craft};
use crate::enumerator::{csum, valid_pick, ord_pickup, expansion, all_picks};
use crate::catalog::{BasicCrafter, InternalItemId, pools_input_ok, required_pools_present, quals_input_ok};
use crate::errors::CraftError;

verus! {

/// The count vector of a bag of pickups.
pub open spec fn counts_of(s: Seq<Pickup>) -> Seq<u8> {
    Seq::new(25, |i: int| count_pk(s, ord_pickup(i)) as u8)
}

/// Occurrences split over concatenation.
proof fn lemma_count_concat(a: Seq<Pickup>, b: Seq<Pickup>, p: Pickup)
    ensures
        count_pk(a + b, p) == count_pk(a, p) + count_pk(b, p),
    decreases b.len(),
{
    if b.len() == 0 {
        assert(a + b =~= a);
    } else {
        lemma_count_concat(a, b.drop_last(), p);
        assert((a + b).drop_last() =~= a + b.drop_last());
        assert((a + b).last() == b.last());
    }
}

/// Occurrences in a constant block.
proof fn lemma_count_repeat(m: nat, q: Pickup, p: Pickup)
    ensures
        count_pk(Seq::new(m, |t: int| q), p) == if q == p {
            m as int
        } else {
            0int
        },
    decreases m,
{
    let s = Seq::new(m, |t: int| q);
    if m > 0 {
        lemma_count_repeat((m - 1) as nat, q, p);
        assert(s.drop_last() =~= Seq::new((m - 1) as nat, |t: int| q));
        assert(s.last() == q);
    }
}

/// A count never exceeds the bag's size.
proof fn lemma_count_le_len(s: Seq<Pickup>, p: Pickup)
    ensures
        0 <= count_pk(s, p) <= s.len(),
    decreases s.len(),
{
    if s.len() > 0 {
        lemma_count_le_len(s.drop_last(), p);
    }
}

/// Counting agrees with multiset counting.
proof fn lemma_count_multiset(s: Seq<Pickup>, p: Pickup)
    ensures
        count_pk(s, p) == s.to_multiset().count(p),
    decreases s.len(),
{
    broadcast use vstd::seq_lib::group_to_multiset_ensures;
    broadcast use vstd::multiset::group_multiset_axioms;

    if s.len() == 0 {
        assert(s.to_multiset() =~= Multiset::<Pickup>::empty());
    } else {
        lemma_count_multiset(s.drop_last(), p);
        assert(s =~= s.drop_last().push(s.last()));
        assert(s.drop_last().push(s.last()).to_multiset() =~= s.drop_last().to_multiset().insert(
            s.last(),
        ));
    }
}

/// Bags with the same counts are the same multiset.
proof fn lemma_counts_same_multiset(x: Seq<Pickup>, y: Seq<Pickup>)
    requires
        x.len() <= 8,
        y.len() <= 8,
        counts_of(x) == counts_of(y),
    ensures
        x.to_multiset() == y.to_multiset(),
{
    broadcast use vstd::multiset::group_multiset_axioms;

    assert forall|p: Pickup| x.to_multiset().count(p) == y.to_multiset().count(p) by {
        lemma_count_multiset(x, p);
        lemma_count_multiset(y, p);
        assert(0 <= p.ord() < 25);
        assert(ord_pickup(p.ord()) == p) by {
            crate::pickup::lemma_ord_injective(p, ord_pickup(p.ord()));
        }
        lemma_count_le_len(x, p);
        lemma_count_le_len(y, p);
        assert(counts_of(x)[p.ord()] == count_pk(x, p) as u8);
        assert(counts_of(y)[p.ord()] == count_pk(y, p) as u8);
    }
    assert(x.to_multiset() =~= y.to_multiset());
}

/// The counts of a bag sum to its size.
proof fn lemma_csum_counts(s: Seq<Pickup>)
    requires
        s.len() <= 8,
    ensures
        csum(counts_of(s)) == s.len(),
    decreases s.len(),
{
    if s.len() == 0 {
        lemma_csum_counts_zero(counts_of(s), 25);
        assert(counts_of(s).subrange(0, 25) =~= counts_of(s));
        assert forall|j: int| 0 <= j < 25 implies counts_of(s)[j] == 0 by {
            lemma_count_le_len(s, ord_pickup(j));
        }
    } else {
        lemma_csum_counts(s.drop_last());
        let c1 = counts_of(s.drop_last());
        let c2 = counts_of(s);
        let p = s.last();
        assert(ord_pickup(p.ord()) == p) by {
            crate::pickup::lemma_ord_injective(p, ord_pickup(p.ord()));
        }
        assert forall|i: int| 0 <= i < 25 implies c2[i] as int == c1[i] as int + (if i == p.ord() {
            1int
        } else {
            0int
        }) by {
            lemma_count_le_len(s, ord_pickup(i));
            lemma_count_le_len(s.drop_last(), ord_pickup(i));
            if i == p.ord() {
                assert(ord_pickup(i) == p);
            } else {
                assert(ord_pickup(i).ord() == i);
                assert(ord_pickup(i) != p);
            }
        }
        lemma_count_le_len(s.drop_last(), p);
        assert(0 <= p.ord() < 25);
        assert(c1[p.ord()] == count_pk(s.drop_last(), p) as u8);
        assert(c1[p.ord()] < 8);
        assert(c2 =~= c1.update(p.ord(), (c1[p.ord()] + 1) as u8));
        crate::enumerator::lemma_csum_update(c1, p.ord(), (c1[p.ord()] + 1) as u8);
        assert(csum(c2) == csum(c1) + 1);
    }
}

/// An all-zero tail sums to zero.
proof fn lemma_csum_counts_zero(c: Seq<u8>, i: int)
    requires
        0 <= i <= c.len(),
        forall|j: int| 0 <= j < c.len() ==> c[j] == 0,
    ensures
        csum(c.subrange(0, i)) == 0,
    decreases i,
{
    if i == 0 {
        assert(c.subrange(0, 0) =~= Seq::<u8>::empty());
    } else {
        lemma_csum_counts_zero(c, i - 1);
        assert(c.subrange(0, i).drop_last() =~= c.subrange(0, i - 1));
    }
}

/// Sorted bags with the same counts are identical.
proof fn lemma_counts_unique(x: Seq<Pickup>, y: Seq<Pickup>)
    requires
        x.len() <= 8,
        y.len() <= 8,
        sorted_pickups(x),
        sorted_pickups(y),
        counts_of(x) == counts_of(y),
    ensures
        x == y,
{
    lemma_counts_same_multiset(x, y);
    crate::recipe::lemma_canonical_unique(x, y);
}

/// The counts of what a count vector spells out are the vector itself.
proof fn lemma_expansion_counts(c: Seq<u8>, i: int, p: Pickup)
    requires
        c.len() == 25,
        0 <= i <= 25,
    ensures
        count_pk(expansion(c, i), p) == if i <= p.ord() < 25 {
            c[p.ord()] as int
        } else {
            0int
        },
    decreases 25 - i,
{
    if i < 25 {
        lemma_expansion_counts(c, i + 1, p);
        lemma_count_concat(Seq::new(c[i] as nat, |t: int| ord_pickup(i)), expansion(c, i + 1), p);
        lemma_count_repeat(c[i] as nat, ord_pickup(i), p);
        if i == p.ord() {
            assert(ord_pickup(i) == p) by {
                crate::pickup::lemma_ord_injective(p, ord_pickup(i));
            }
        } else {
            assert(ord_pickup(i).ord() == i);
            assert(ord_pickup(i) != p);
        }
    }
}

// ------------------------------------------------------------------
// the index

/// Whether a bag fits under the held counts.
pub open spec fn fits(s: Seq<Pickup>, held: Seq<u8>) -> bool {
    forall|i: int| 0 <= i < 25 ==> count_pk(s, ord_pickup(i)) <= held[i]
}

/// The brute-force membership rule over explicit catalog tables and held
/// counts.
pub open spec fn craftable_with(
    pools: Seq<Seq<u32>>,
    quals: Seq<u32>,
    held: Seq<u8>,
    x: int,
    s: Seq<Pickup>,
) -> bool {
    &&& s.len() == 8
    &&& sorted_pickups(s)
    &&& fits(s, held)
    &&& spec_craft(pools, quals, s) == x
}

/// A held count incremented, saturating.
pub open spec fn sat_inc(v: u8) -> u8 {
    if v == 255 {
        255u8
    } else {
        (v + 1) as u8
    }
}

/// A held count decremented, stopping at zero.
pub open spec fn sat_dec(v: u8) -> u8 {
    if v == 0 {
        0u8
    } else {
        (v - 1) as u8
    }
}

/// The incremental engine: a catalog, the held pickup counts, a per-item
/// recipe index and a memo cache for the pure crafting rule.
pub struct DeltaCrafter {
    crafter: BasicCrafter,
    cache: Vec<(InternalPickups, InternalItemId)>,
    methods: Vec<Vec<InternalPickups>>,
    held: Vec<u8>,
}

impl DeltaCrafter {
    /// The catalog's pool weight tables.
    pub closed spec fn pools_at(self) -> Seq<Seq<u32>> {
        self.crafter.pools_at()
    }

    /// The catalog's quality table.
    pub closed spec fn quals_at(self) -> Seq<u32> {
        self.crafter.quals_at()
    }

    /// The held counts, by pickup ordinal.
    pub closed spec fn held_at(self) -> Seq<u8> {
        self.held@
    }

    /// The recipes currently indexed under an item, as pickup sequences.
    pub closed spec fn bucket(self, x: int) -> Seq<Seq<Pickup>> {
        self.methods@[x]@.map_values(|r: InternalPickups| r@)
    }

    /// The underlying catalog.
    pub closed spec fn crafter_at(self) -> BasicCrafter {
        self.crafter
    }

    /// The memo cache's entries as views.
    pub closed spec fn cache_at(self) -> Seq<(Seq<Pickup>, int)> {
        self.cache@.map_values(|e: (InternalPickups, InternalItemId)| (e.0@, e.1@))
    }

    /// Number of buckets (one per item id).
    pub closed spec fn buckets_len(self) -> int {
        self.methods@.len() as int
    }

    /// Whether a recipe is indexed under an item.
    pub open spec fn has_method(self, x: int, s: Seq<Pickup>) -> bool {
        exists|t: int| 0 <= t < self.bucket(x).len() && self.bucket(x)[t] == s
    }

    /// The brute-force membership rule: a canonical eight-pickup bag that
    /// fits under the held counts and crafts to the item.
    pub open spec fn craftable(self, x: int, s: Seq<Pickup>) -> bool {
        craftable_with(self.pools_at(), self.quals_at(), self.held_at(), x, s)
    }

    /// The catalog and memo cache are sound: every cached answer is the
    /// crafting rule's answer.
    pub open spec fn cache_wf(self) -> bool {
        &&& self.crafter_at().wf()
        &&& (forall|t: int|
            0 <= t < self.cache_at().len() ==> {
                &&& sorted_pickups((#[trigger] self.cache_at()[t]).0)
                &&& self.cache_at()[t].0.len() == 8
                &&& self.cache_at()[t].1 == spec_craft(
                    self.pools_at(),
                    self.quals_at(),
                    self.cache_at()[t].0,
                )
                &&& 0 <= self.cache_at()[t].1 <= 730
            })
    }

    /// The standing invariant: shapes, duplicate-freedom, and the
    /// brute-force rule holding exactly, item by item.
    pub open spec fn wf(self) -> bool {
        &&& self.cache_wf()
        &&& self.held_at().len() == 25
        &&& self.buckets_len() == 731
        &&& (forall|x: int, t: int|
            0 <= x < 731 && 0 <= t < self.bucket(x).len() ==> self.craftable(
                x,
                #[trigger] self.bucket(x)[t],
            ))
        &&& (forall|x: int, t1: int, t2: int|
            0 <= x < 731 && 0 <= t1 < t2 < self.bucket(x).len() ==> #[trigger] self.bucket(x)[t1]
                != #[trigger] self.bucket(x)[t2])
        &&& (forall|x: int, s: Seq<Pickup>|
            0 <= x < 731 && #[trigger] self.craftable(x, s) ==> self.has_method(x, s))
    }

    /// Build an empty index over a validated catalog; fails exactly when
    /// the catalog input is rejected.
    pub fn new(pools: Vec<(u32, Vec<(u16, u32)>)>, qualities: Vec<(u16, u32)>) -> (r: Result<
        DeltaCrafter,
        CraftError,
    >)
        ensures
            r matches Ok(d) ==> {
                &&& pools_input_ok(pools@)
                &&& required_pools_present(pools@)
                &&& quals_input_ok(qualities@)
                &&& d.wf()
                &&& d.held_at() =~= Seq::new(25, |i: int| 0u8)
                &&& (forall|x: int| 0 <= x < 731 ==> (#[trigger] d.bucket(x)).len() == 0)
                &&& (forall|p: int, i: int|
                    0 <= p < 31 && 0 <= i < 731 ==> #[trigger] d.pools_at()[p][i]
                        == crate::catalog::spec_pool_weight(pools@, p, i))
                &&& (forall|i: int|
                    0 <= i < 731 ==> #[trigger] d.quals_at()[i] == crate::catalog::find_quality_in(
                        qualities@,
                        i,
                    ))
            },
            r matches Err(e) ==> {
                &&& e == CraftError::StartupDataError
                &&& !(pools_input_ok(pools@) && required_pools_present(pools@) && quals_input_ok(
                    qualities@,
                ))
            },
    {
        let crafter = match BasicCrafter::new(pools, qualities) {
            Ok(c) => c,
            Err(e) => {
                return Err(CraftError::StartupDataError);
            },
        };
        let mut methods: Vec<Vec<InternalPickups>> = Vec::new();
        let mut x: usize = 0;
        while x < 731
            invariant
                x <= 731,
                methods@.len() == x as int,
                forall|y: int| 0 <= y < x ==> (#[trigger] methods@[y])@.len() == 0,
            decreases 731 - x,
        {
            methods.push(Vec::new());
            x = x + 1;
        }
        let mut held: Vec<u8> = Vec::new();
        let mut z: usize = 0;
        while z < 25
            invariant
                z <= 25,
                held@.len() == z as int,
                forall|y: int| 0 <= y < z ==> #[trigger] held@[y] == 0,
            decreases 25 - z,
        {
            held.push(0);
            z = z + 1;
        }
        let d = DeltaCrafter { crafter, cache: Vec::new(), methods, held };
        proof {
            lemma_empty_complete(d);
        }
        Ok(d)
    }

    /// The crafting rule's answer for a canonical recipe, memoized: a cache
    /// hit is returned as stored, a miss is computed once and stored.
    pub fn craft(&mut self, pickups: &InternalPickups) -> (r: InternalItemId)
        requires
            old(self).cache_wf(),
            pickups.wf(),
        ensures
            final(self).cache_wf(),
            final(self).buckets_len() == old(self).buckets_len() && (forall|x: int| 0 <= x < 731 ==> #[trigger] final(self).bucket(x) == old(self).bucket(x)),
            final(self).held_at() == old(self).held_at(),
            final(self).pools_at() == old(self).pools_at(),
            final(self).quals_at() == old(self).quals_at(),
            final(self).crafter_at() == old(self).crafter_at(),
            r@ == spec_craft(old(self).pools_at(), old(self).quals_at(), pickups@),
            0 <= r@ <= 730,
    {
        let n = self.cache.len();
        let mut t: usize = 0;
        while t < n
            invariant
                t <= n,
                n == self.cache@.len(),
                self.cache_wf(),
                pickups.wf(),
                self == old(self),
            decreases n - t,
        {
            proof {
                assert(self.cache_at()[t as int] == (
                    self.cache@[t as int].0@,
                    self.cache@[t as int].1@,
                ));
            }
            if self.cache[t].0.same_as(pickups) {
                return self.cache[t].1;
            }
            t = t + 1;
        }
        let id = self.crafter.craft(pickups);
        let key = pickups.clone();
        self.cache.push((key, id));
        proof {
            let ca = self.cache_at();
            let ca0 = old(self).cache_at();
            assert(ca.len() == ca0.len() + 1);
            assert forall|u: int| 0 <= u < ca.len() implies {
                &&& sorted_pickups((#[trigger] ca[u]).0)
                &&& ca[u].0.len() == 8
                &&& ca[u].1 == spec_craft(self.pools_at(), self.quals_at(), ca[u].0)
                &&& 0 <= ca[u].1 <= 730
            } by {
                assert(ca[u] == (self.cache@[u].0@, self.cache@[u].1@));
                if u < ca0.len() {
                    assert(self.cache@[u] == old(self).cache@[u]);
                    assert(ca0[u] == (old(self).cache@[u].0@, old(self).cache@[u].1@));
                } else {
                    assert(self.cache@[u].0@ == pickups@);
                    assert(self.cache@[u].1@ == id@);
                }
            }
        }
        id
    }

    /// The held counts, by pickup ordinal.
    pub fn pickups(&self) -> (r: Vec<u8>)
        requires
            self.held_at().len() == 25,
        ensures
            r@ == self.held_at(),
    {
        let mut r: Vec<u8> = Vec::new();
        let mut i: usize = 0;
        while i < 25
            invariant
                i <= 25,
                self.held_at().len() == 25,
                r@ =~= self.held_at().subrange(0, i as int),
            decreases 25 - i,
        {
            r.push(self.held[i]);
            i = i + 1;
        }
        proof {
            assert(r@ =~= self.held_at());
        }
        r
    }

    /// The items with at least one currently craftable recipe.
    pub fn items(&self) -> (r: Vec<InternalItemId>)
        requires
            self.buckets_len() == 731,
        ensures
            forall|t: int|
                0 <= t < r@.len() ==> 0 <= (#[trigger] r@[t])@ <= 730 && self.bucket(r@[t]@).len()
                    > 0,
            forall|x: int|
                0 <= x < 731 && (#[trigger] self.bucket(x)).len() > 0 ==> exists|t: int|
                    0 <= t < r@.len() && (#[trigger] r@[t])@ == x,
            forall|t1: int, t2: int|
                0 <= t1 < t2 < r@.len() ==> (#[trigger] r@[t1])@ < (#[trigger] r@[t2])@,
    {
        let mut r: Vec<InternalItemId> = Vec::new();
        let mut x: usize = 0;
        while x < 731
            invariant
                x <= 731,
                self.methods@.len() == 731,
                forall|t: int|
                    0 <= t < r@.len() ==> 0 <= (#[trigger] r@[t])@ < x && self.bucket(
                        r@[t]@,
                    ).len() > 0,
                forall|y: int|
                    0 <= y < x && (#[trigger] self.bucket(y)).len() > 0 ==> exists|t: int|
                        0 <= t < r@.len() && (#[trigger] r@[t])@ == y,
                forall|t1: int, t2: int|
                    0 <= t1 < t2 < r@.len() ==> (#[trigger] r@[t1])@ < (#[trigger] r@[t2])@,
            decreases 731 - x,
        {
            let ghost prev_r = r@;
            if self.methods[x].len() > 0 {
                let id = InternalItemId::from_index(x);
                r.push(id);
            }
            proof {
                assert forall|y: int|
                    0 <= y < x as int + 1 && (#[trigger] self.bucket(y)).len() > 0
                    implies exists|t: int|
                    0 <= t < r@.len() && (#[trigger] r@[t])@ == y by {
                    if y == x as int {
                        assert(self.methods@[y]@.len() > 0);
                        assert(r@[r@.len() - 1]@ == y);
                    } else {
                        let t = choose|t: int| 0 <= t < prev_r.len() && prev_r[t]@ == y;
                        assert(r@[t]@ == y);
                    }
                }
            }
            x = x + 1;
        }
        r
    }

    /// The current recipe set of an item, in index order.
    pub fn get_recipes(&self, item: InternalItemId) -> (r: Vec<InternalPickups>)
        requires
            self.buckets_len() == 731,
            0 <= item@ <= 730,
        ensures
            r@.len() == self.bucket(item@).len(),
            forall|t: int|
                0 <= t < r@.len() ==> (#[trigger] r@[t])@ == self.bucket(item@)[t],
    {
        let x = item.value() as usize;
        let b = &self.methods[x];
        let n = b.len();
        let mut r: Vec<InternalPickups> = Vec::new();
        let mut t: usize = 0;
        while t < n
            invariant
                t <= n,
                x == item@,
                0 <= item@ <= 730,
                self.methods@.len() == 731,
                n == self.bucket(item@).len(),
                b == &self.methods[item@],
                r@.len() == t as int,
                forall|u: int|
                    0 <= u < t ==> (#[trigger] r@[u])@ == self.bucket(item@)[u],
            decreases n - t,
        {
            r.push(b[t].clone());
            t = t + 1;
        }
        r
    }

    /// Zero every held count and clear every recipe set; the memo cache
    /// stays, since the crafting rule is pure.
    pub fn reset(&mut self)
        requires
            old(self).cache_wf(),
            old(self).held_at().len() == 25,
            old(self).buckets_len() == 731,
        ensures
            final(self).wf(),
            final(self).held_at() =~= Seq::new(25, |i: int| 0u8),
            forall|x: int| 0 <= x < 731 ==> (#[trigger] final(self).bucket(x)).len() == 0,
            final(self).pools_at() == old(self).pools_at(),
            final(self).quals_at() == old(self).quals_at(),
            final(self).crafter_at() == old(self).crafter_at(),
    {
        let mut i: usize = 0;
        while i < 25
            invariant
                i <= 25,
                self.held@.len() == 25,
                forall|y: int| 0 <= y < i ==> #[trigger] self.held@[y] == 0,
                self.cache_wf(),
                self.methods@.len() == 731,
                self.crafter == old(self).crafter,
                self.cache@ == old(self).cache@,
            decreases 25 - i,
        {
            let ghost before = *self;
            self.held.set(i, 0);
            proof {
                lemma_cache_wf_frame(before, *self);
            }
            i = i + 1;
        }
        let mut x: usize = 0;
        while x < 731
            invariant
                x <= 731,
                self.held@.len() == 25,
                forall|y: int| 0 <= y < 25 ==> #[trigger] self.held@[y] == 0,
                self.methods@.len() == 731,
                forall|y: int| 0 <= y < x ==> (#[trigger] self.methods@[y])@.len() == 0,
                self.cache_wf(),
                self.crafter == old(self).crafter,
                self.cache@ == old(self).cache@,
            decreases 731 - x,
        {
            let ghost before = *self;
            self.methods.set(x, Vec::new());
            proof {
                lemma_cache_wf_frame(before, *self);
            }
            x = x + 1;
        }
        proof {
            lemma_empty_complete(*self);
        }
    }
}

/// With all held counts zero and all buckets empty, the brute-force rule
/// holds vacuously: no eight-pickup bag fits under zero counts.
proof fn lemma_empty_complete(d: DeltaCrafter)
    requires
        d.held_at().len() == 25,
        forall|y: int| 0 <= y < 25 ==> #[trigger] d.held_at()[y] == 0,
        d.methods@.len() == 731,
        forall|y: int| 0 <= y < 731 ==> (#[trigger] d.methods@[y])@.len() == 0,
    ensures
        forall|x: int, t: int|
            0 <= x < 731 && 0 <= t < d.bucket(x).len() ==> d.craftable(
                x,
                #[trigger] d.bucket(x)[t],
            ),
        forall|x: int, t1: int, t2: int|
            0 <= x < 731 && 0 <= t1 < t2 < d.bucket(x).len() ==> #[trigger] d.bucket(x)[t1]
                != #[trigger] d.bucket(x)[t2],
        forall|x: int, s: Seq<Pickup>|
            0 <= x < 731 && #[trigger] d.craftable(x, s) ==> d.has_method(x, s),
        forall|x: int| 0 <= x < 731 ==> (#[trigger] d.bucket(x)).len() == 0,
{
    assert forall|x: int, s: Seq<Pickup>|
        0 <= x < 731 && #[trigger] d.craftable(x, s) implies d.has_method(x, s) by {
        lemma_csum_counts(s);
        assert forall|j: int| 0 <= j < counts_of(s).len() implies #[trigger] counts_of(s)[j]
            == 0 by {
            lemma_count_le_len(s, ord_pickup(j));
            assert(count_pk(s, ord_pickup(j)) <= d.held_at()[j]);
        }
        lemma_csum_all_zero(counts_of(s));
    }
}

/// The cache invariant only reads the catalog and the cache.
proof fn lemma_cache_wf_frame(a: DeltaCrafter, b: DeltaCrafter)
    requires
        a.cache_wf(),
        b.crafter == a.crafter,
        b.cache@ == a.cache@,
    ensures
        b.cache_wf(),
{
    assert(b.crafter_at() == a.crafter_at());
    assert(b.cache_at() == a.cache_at());
    assert(b.pools_at() == a.pools_at());
    assert(b.quals_at() == a.quals_at());
    assert forall|t: int| 0 <= t < b.cache_at().len() implies {
        &&& sorted_pickups((#[trigger] b.cache_at()[t]).0)
        &&& b.cache_at()[t].0.len() == 8
        &&& b.cache_at()[t].1 == spec_craft(b.pools_at(), b.quals_at(), b.cache_at()[t].0)
        &&& 0 <= b.cache_at()[t].1 <= 730
    } by {
        assert(a.cache_at()[t] == b.cache_at()[t]);
        assert(sorted_pickups(a.cache_at()[t].0));
    }
}

/// A vector of zeros sums to zero.
proof fn lemma_csum_all_zero(c: Seq<u8>)
    requires
        forall|j: int| 0 <= j < c.len() ==> #[trigger] c[j] == 0,
    ensures
        csum(c) == 0,
    decreases c.len(),
{
    if c.len() > 0 {
        lemma_csum_all_zero(c.drop_last());
    }
}

// ------------------------------------------------------------------
// recipe construction and bucket surgery

/// Counts with the same multiset are the same counts.
proof fn lemma_counts_of_multiset(x: Seq<Pickup>, y: Seq<Pickup>)
    requires
        x.to_multiset() == y.to_multiset(),
    ensures
        counts_of(x) =~= counts_of(y),
{
    assert forall|i: int| 0 <= i < 25 implies counts_of(x)[i] == counts_of(y)[i] by {
        lemma_count_multiset(x, ord_pickup(i));
        lemma_count_multiset(y, ord_pickup(i));
    }
}

/// Build the canonical recipe holding a spelled-out sub-bag plus `n` units
/// of one pickup.
fn make_recipe(e: &Vec<u8>, p: Pickup, n: u8) -> (r: InternalPickups)
    requires
        e@.len() == 25,
        n <= 8,
        csum(e@) + n as int == 8,
        forall|j: int| 0 <= j < 25 ==> e@[j] <= 8,
        e@[p.ord()] == 0,
    ensures
        r.wf(),
        counts_of(r@) =~= e@.update(p.ord(), n),
{
    proof {
        crate::enumerator::lemma_csum_nonneg(e@);
    }
    let mut v = crate::enumerator::materialize(e, 8 - n);
    let ghost spelled = expansion(e@, 0);
    let ghost mid = v@;
    let mut j: usize = 8 - n as usize;
    while j < 8
        invariant
            n <= 8,
            8 - n as int <= j <= 8,
            v@.len() == 8,
            mid.len() == 8,
            forall|t: int| 0 <= t < 8 - n as int ==> v@[t] == mid[t],
            forall|t: int| 8 - n as int <= t < j ==> v@[t] == p,
            forall|t: int| j <= t < 8 ==> v@[t] == mid[t],
        decreases 8 - j,
    {
        let ghost prev_v = v@;
        v.set(j, p);
        proof {
            assert(v@ == prev_v.update(j as int, p));
            assert(v@[j as int] == p);
            assert(forall|t: int| 0 <= t < 8 && t != j as int ==> v@[t] == prev_v[t]);
        }
        j = j + 1;
    }
    proof {
        assert(v@ =~= spelled + Seq::new(n as nat, |t: int| p)) by {
            assert(mid == crate::enumerator::padded_expansion(e@, 8 - n as int));
            assert(spelled.len() == csum(e@)) by {
                lemma_expansion_len(e@);
            }
            assert forall|t: int| 0 <= t < 8 implies v@[t] == (spelled + Seq::new(
                n as nat,
                |u: int| p,
            ))[t] by {
                if t < 8 - n as int {
                    assert(v@[t] == mid[t]);
                    assert(mid[t] == spelled[t]);
                }
            }
        }
    }
    let r = InternalPickups::from_vec(v);
    proof {
        lemma_counts_of_multiset(r@, v@);
        assert forall|i: int| 0 <= i < 25 implies counts_of(v@)[i] == e@.update(p.ord(), n)[i] by {
            lemma_count_concat(spelled, Seq::new(n as nat, |u: int| p), ord_pickup(i));
            lemma_expansion_counts(e@, 0, ord_pickup(i));
            lemma_count_repeat(n as nat, p, ord_pickup(i));
            assert(ord_pickup(i).ord() == i);
            if i == p.ord() {
                assert(ord_pickup(i) == p) by {
                    crate::pickup::lemma_ord_injective(p, ord_pickup(i));
                }
            } else {
                assert(ord_pickup(i) != p);
            }
        }
    }
    r
}

/// A spelled-out sub-bag has one slot per held unit.
proof fn lemma_expansion_len(c: Seq<u8>)
    requires
        c.len() == 25,
        csum(c) <= 8,
    ensures
        expansion(c, 0).len() == csum(c),
{
    lemma_expansion_len_from(c, 0);
    assert(c.subrange(0, 25) =~= c);
}

proof fn lemma_expansion_len_from(c: Seq<u8>, i: int)
    requires
        c.len() == 25,
        0 <= i <= 25,
    ensures
        expansion(c, i).len() == csum(c.subrange(i, 25)),
    decreases 25 - i,
{
    if i == 25 {
        assert(c.subrange(25, 25) =~= Seq::<u8>::empty());
    } else {
        lemma_expansion_len_from(c, i + 1);
        crate::enumerator::lemma_csum_split(c, i, i + 1, 25);
        assert(c.subrange(i, i + 1) =~= seq![c[i]]);
        crate::enumerator::lemma_csum_single(c[i]);
    }
}

impl DeltaCrafter {
    /// Append a recipe to an item's set; the caller shows it is new.
    fn insert_method(&mut self, x: usize, r: InternalPickups)
        requires
            x < 731,
            old(self).buckets_len() == 731,
            r.wf(),
            forall|t: int|
                0 <= t < old(self).bucket(x as int).len() ==> old(self).bucket(x as int)[t] != r@,
        ensures
            final(self).buckets_len() == 731,
            forall|y: int|
                0 <= y < 731 && y != x as int ==> #[trigger] final(self).bucket(y) == old(
                    self,
                ).bucket(y),
            final(self).bucket(x as int) == old(self).bucket(x as int).push(r@),
            final(self).held_at() == old(self).held_at(),
            final(self).cache_at() == old(self).cache_at(),
            final(self).crafter_at() == old(self).crafter_at(),
            final(self).pools_at() == old(self).pools_at(),
            final(self).quals_at() == old(self).quals_at(),
    {
        let b = &self.methods[x];
        let n = b.len();
        let mut nb: Vec<InternalPickups> = Vec::new();
        let mut t: usize = 0;
        while t < n
            invariant
                t <= n,
                x < 731,
                self.buckets_len() == 731,
                n == self.methods@[x as int]@.len(),
                b == &self.methods[x as int],
                nb@.len() == t as int,
                forall|u: int|
                    0 <= u < t ==> (#[trigger] nb@[u])@ == self.bucket(x as int)[u],
            decreases n - t,
        {
            nb.push(b[t].clone());
            t = t + 1;
        }
        nb.push(r);
        self.methods.set(x, nb);
        proof {
            assert(self.bucket(x as int) =~= old(self).bucket(x as int).push(r@));
            assert forall|y: int|
                0 <= y < 731 && y != x as int implies #[trigger] self.bucket(y) == old(
                self,
            ).bucket(y) by {
                assert(self.methods@[y] == old(self).methods@[y]);
            }
        }
    }

    /// Take a recipe out of an item's set; the caller shows it is present
    /// and the set is duplicate-free.
    fn remove_method(&mut self, x: usize, r: &InternalPickups)
        requires
            x < 731,
            old(self).buckets_len() == 731,
            forall|t1: int, t2: int|
                0 <= t1 < t2 < old(self).bucket(x as int).len() ==> #[trigger] old(self).bucket(
                    x as int,
                )[t1] != #[trigger] old(self).bucket(x as int)[t2],
            exists|t: int|
                0 <= t < old(self).bucket(x as int).len() && old(self).bucket(x as int)[t] == r@,
        ensures
            final(self).buckets_len() == 731,
            forall|y: int|
                0 <= y < 731 && y != x as int ==> #[trigger] final(self).bucket(y) == old(
                    self,
                ).bucket(y),
            // membership: exactly the one copy of r leaves
            forall|s: Seq<Pickup>|
                #![trigger final(self).has_method(x as int, s)]
                #![trigger old(self).has_method(x as int, s)]
                final(self).has_method(x as int, s) <==> (old(self).has_method(x as int, s) && s
                    != r@),
            // entries come from the old set
            forall|t: int|
                0 <= t < final(self).bucket(x as int).len() ==> exists|u: int|
                    0 <= u < old(self).bucket(x as int).len() && old(self).bucket(x as int)[u]
                        == #[trigger] final(self).bucket(x as int)[t],
            // duplicate-freedom survives
            forall|t1: int, t2: int|
                0 <= t1 < t2 < final(self).bucket(x as int).len() ==> #[trigger] final(self).bucket(
                    x as int,
                )[t1] != #[trigger] final(self).bucket(x as int)[t2],
            final(self).held_at() == old(self).held_at(),
            final(self).cache_at() == old(self).cache_at(),
            final(self).crafter_at() == old(self).crafter_at(),
            final(self).pools_at() == old(self).pools_at(),
            final(self).quals_at() == old(self).quals_at(),
    {
        let b = &self.methods[x];
        let n = b.len();
        let mut nb: Vec<InternalPickups> = Vec::new();
        let mut t: usize = 0;
        let mut skipped: bool = false;
        while t < n
            invariant
                t <= n,
                x < 731,
                self.buckets_len() == 731,
                n == self.methods@[x as int]@.len(),
                b == &self.methods[x as int],
                forall|t1: int, t2: int|
                    0 <= t1 < t2 < self.bucket(x as int).len() ==> #[trigger] self.bucket(
                        x as int,
                    )[t1] != #[trigger] self.bucket(x as int)[t2],
                // nb holds, in order, the prefix entries other than r
                !skipped ==> nb@.len() == t as int && (forall|u: int|
                    0 <= u < t ==> (#[trigger] nb@[u])@ == self.bucket(x as int)[u]) && (forall|
                    u: int,
                |
                    0 <= u < t ==> (#[trigger] self.bucket(x as int)[u]) != r@),
                skipped ==> nb@.len() == t as int - 1 && (exists|t0: int|
                    0 <= t0 < t && #[trigger] self.bucket(x as int)[t0] == r@ && (forall|u: int|
                        0 <= u < t0 ==> (#[trigger] nb@[u])@ == self.bucket(x as int)[u]) && (
                    forall|u: int|
                        t0 <= u < t - 1 ==> (#[trigger] nb@[u])@ == self.bucket(x as int)[u + 1])),
            decreases n - t,
        {
            let ghost prev_nb = nb@;
            let ghost was_skipped = skipped;
            if !skipped && b[t].same_as(r) {
                skipped = true;
                proof {
                    let t0 = t as int;
                    assert(self.bucket(x as int)[t0] == r@);
                    assert(nb@.len() == t as int + 1 - 1);
                    assert(forall|u: int|
                        0 <= u < t0 ==> (#[trigger] nb@[u])@ == self.bucket(x as int)[u]);
                    assert(forall|u: int|
                        t0 <= u < t as int + 1 - 1 ==> (#[trigger] nb@[u])@ == self.bucket(
                            x as int,
                        )[u + 1]);
                }
            } else {
                nb.push(b[t].clone());
                proof {
                    assert(forall|u: int| 0 <= u < prev_nb.len() ==> nb@[u] == prev_nb[u]);
                    assert(nb@[nb@.len() - 1]@ == self.bucket(x as int)[t as int]);
                    if was_skipped {
                        let t0 = choose|t0: int|
                            0 <= t0 < t as int && #[trigger] self.bucket(x as int)[t0] == r@ && (
                            forall|u: int|
                                0 <= u < t0 ==> (#[trigger] prev_nb[u])@ == self.bucket(
                                    x as int,
                                )[u]) && (forall|u: int|
                                t0 <= u < t as int - 1 ==> (#[trigger] prev_nb[u])@ == self.bucket(
                                    x as int,
                                )[u + 1]);
                        assert(nb@.len() == t as int + 1 - 1);
                        assert forall|u: int|
                            0 <= u < t0 implies (#[trigger] nb@[u])@ == self.bucket(
                            x as int,
                        )[u] by {
                            assert(nb@[u] == prev_nb[u]);
                        }
                        assert forall|u: int|
                            t0 <= u < t as int + 1 - 1 implies (#[trigger] nb@[u])@
                            == self.bucket(x as int)[u + 1] by {
                            if u < t as int - 1 {
                                assert(nb@[u] == prev_nb[u]);
                            }
                        }
                        assert(0 <= t0 < t as int + 1 && self.bucket(x as int)[t0] == r@ && (
                        forall|u: int|
                            0 <= u < t0 ==> (#[trigger] nb@[u])@ == self.bucket(x as int)[u]) && (
                        forall|u: int|
                            t0 <= u < t as int + 1 - 1 ==> (#[trigger] nb@[u])@ == self.bucket(
                                x as int,
                            )[u + 1]));
                    }
                }
            }
            t = t + 1;
        }
        proof {
            if !skipped {
                let w = choose|w: int|
                    0 <= w < self.bucket(x as int).len() && self.bucket(x as int)[w] == r@;
                assert(nb@[w]@ == r@);
                assert(false);
            }
        }
        self.methods.set(x, nb);
        proof {
            let bo = old(self).bucket(x as int);
            let bn = self.bucket(x as int);
            let t0 = choose|t0: int|
                0 <= t0 < bo.len() && #[trigger] bo[t0] == r@ && (forall|u: int|
                    0 <= u < t0 ==> (#[trigger] nb@[u])@ == bo[u]) && (forall|u: int|
                    t0 <= u < bo.len() - 1 ==> (#[trigger] nb@[u])@ == bo[u + 1]);
            assert(bn.len() == bo.len() - 1);
            assert forall|u: int| 0 <= u < bn.len() implies #[trigger] bn[u] == (if u < t0 {
                bo[u]
            } else {
                bo[u + 1]
            }) by {
                assert(bn[u] == nb@[u]@);
            }
            assert forall|s: Seq<Pickup>|
                #![trigger self.has_method(x as int, s)]
                #![trigger old(self).has_method(x as int, s)]
                self.has_method(x as int, s) <==> (old(self).has_method(x as int, s) && s != r@)
                by {
                if self.has_method(x as int, s) {
                    let t = choose|t: int| 0 <= t < bn.len() && bn[t] == s;
                    if t < t0 {
                        assert(bo[t] == s);
                        assert(s != r@);
                    } else {
                        assert(bo[t + 1] == s);
                        assert(s != r@);
                    }
                }
                if old(self).has_method(x as int, s) && s != r@ {
                    let t = choose|t: int| 0 <= t < bo.len() && bo[t] == s;
                    if t < t0 {
                        assert(bn[t] == s);
                    } else if t == t0 {
                        assert(false);
                    } else {
                        assert(bn[t - 1] == s);
                    }
                }
            }
            assert forall|y: int|
                0 <= y < 731 && y != x as int implies #[trigger] self.bucket(y) == old(
                self,
            ).bucket(y) by {
                assert(self.methods@[y] == old(self).methods@[y]);
            }
        }
    }
}

// ------------------------------------------------------------------
// the incremental updates

impl DeltaCrafter {
    /// Raise a pickup's held count by one (saturating) and fold every newly
    /// craftable recipe into the index. The brute-force invariant `wf`
    /// holds again afterwards, so the index is exactly the recipe sets the
    /// new held counts allow.
    pub fn add_pickup(&mut self, pickup: Pickup)
        requires
            old(self).wf(),
        ensures
            final(self).wf(),
            final(self).held_at() == old(self).held_at().update(
                pickup.ord(),
                sat_inc(old(self).held_at()[pickup.ord()]),
            ),
            final(self).pools_at() == old(self).pools_at(),
            final(self).quals_at() == old(self).quals_at(),
            final(self).crafter_at() == old(self).crafter_at(),
    {
        let po = pickup.ordinal();
        let cur = self.held[po];
        if cur == 255 {
            proof {
                assert(self.held@ =~= old(self).held@.update(po as int, 255u8));
            }
            return;
        }
        let n = cur + 1;
        let ghost hold_ = old(self).held@;
        let ghost pools = old(self).pools_at();
        let ghost quals = old(self).quals_at();
        self.held.set(po, n);
        let ghost hnew = self.held@;
        proof {
            lemma_cache_wf_frame(*old(self), *self);
            assert forall|x: int| 0 <= x < 731 implies #[trigger] self.bucket(x) == old(
                self,
            ).bucket(x) by {
                assert(self.methods@[x] == old(self).methods@[x]);
            }
        }
        if n > 8 {
            proof {
                assert forall|x: int, t: int|
                    0 <= x < 731 && 0 <= t < self.bucket(x).len() implies self.craftable(
                    x,
                    #[trigger] self.bucket(x)[t],
                ) by {
                    assert(self.bucket(x)[t] == old(self).bucket(x)[t]);
                    assert(old(self).craftable(x, old(self).bucket(x)[t]));
                    lemma_fits_high(self.bucket(x)[t], hold_, hnew, po as int);
                }
                assert forall|x: int, t1: int, t2: int|
                    0 <= x < 731 && 0 <= t1 < t2 < self.bucket(x).len() implies #[trigger] self
                    .bucket(x)[t1] != #[trigger] self.bucket(x)[t2] by {
                    assert(self.bucket(x) == old(self).bucket(x));
                }
                assert forall|x: int, s: Seq<Pickup>|
                    0 <= x < 731 && #[trigger] self.craftable(x, s) implies self.has_method(
                    x,
                    s,
                ) by {
                    lemma_fits_high(s, hold_, hnew, po as int);
                    assert(old(self).craftable(x, s));
                    assert(old(self).has_method(x, s));
                    let t = choose|t: int|
                        0 <= t < old(self).bucket(x).len() && old(self).bucket(x)[t] == s;
                    assert(self.bucket(x)[t] == s);
                }
                assert(self.held_at() == old(self).held_at().update(
                    pickup.ord(),
                    sat_inc(old(self).held_at()[pickup.ord()]),
                ));
            }
            return;
        }
        let other = 8 - n;
        let mut held2: Vec<u8> = Vec::new();
        let mut z: usize = 0;
        while z < 25
            invariant
                z <= 25,
                self.held@.len() == 25,
                held2@ =~= self.held@.subrange(0, z as int),
            decreases 25 - z,
        {
            held2.push(self.held[z]);
            z = z + 1;
        }
        held2.set(po, 0);
        proof {
            assert(held2@ =~= hnew.update(po as int, 0u8));
        }
        let picks = all_picks(&held2, other);
        let m = picks.len();
        proof {
            assert forall|x: int, s: Seq<Pickup>|
                0 <= x < 731 implies (#[trigger] self.has_method(x, s) <==> (craftable_with(
                pools,
                quals,
                hold_,
                x,
                s,
            ) || (s.len() == 8 && sorted_pickups(s) && spec_craft(pools, quals, s) == x && exists|
                t: int,
            |
                0 <= t < 0 && counts_of(s) == (#[trigger] picks@[t])@.update(po as int, n)))) by {
                assert(self.bucket(x) == old(self).bucket(x));
                if self.has_method(x, s) {
                    let t = choose|t: int|
                        0 <= t < self.bucket(x).len() && self.bucket(x)[t] == s;
                    assert(old(self).bucket(x)[t] == s);
                    assert(old(self).craftable(x, old(self).bucket(x)[t]));
                }
                if craftable_with(pools, quals, hold_, x, s) {
                    assert(old(self).craftable(x, s));
                    assert(old(self).has_method(x, s));
                    let t = choose|t: int|
                        0 <= t < old(self).bucket(x).len() && old(self).bucket(x)[t] == s;
                    assert(self.bucket(x)[t] == s);
                }
            }
        }
        let mut i: usize = 0;
        while i < m
            invariant
                i <= m,
                m == picks@.len(),
                self.cache_wf(),
                self.buckets_len() == 731,
                self.held@ == hnew,
                self.pools_at() == pools,
                self.quals_at() == quals,
                self.crafter_at() == old(self).crafter_at(),
                pickup.ord() == po as int,
                po < 25,
                1 <= n <= 8,
                other == 8 - n,
                hold_.len() == 25,
                hnew.len() == 25,
                hnew == hold_.update(po as int, n),
                hold_[po as int] == n - 1,
                held2@.len() == 25,
                held2@ == hnew.update(po as int, 0u8),
                forall|t: int|
                    0 <= t < m ==> valid_pick((#[trigger] picks@[t])@, held2@, other as int),
                forall|t1: int, t2: int|
                    0 <= t1 < t2 < m ==> (#[trigger] picks@[t1])@ != (#[trigger] picks@[t2])@,
                forall|d: Seq<u8>|
                    #[trigger] valid_pick(d, held2@, other as int) ==> exists|t: int|
                        0 <= t < m && (#[trigger] picks@[t])@ == d,
                forall|x: int, t: int|
                    0 <= x < 731 && 0 <= t < self.bucket(x).len() ==> craftable_with(
                        pools,
                        quals,
                        hnew,
                        x,
                        #[trigger] self.bucket(x)[t],
                    ),
                forall|x: int, t1: int, t2: int|
                    0 <= x < 731 && 0 <= t1 < t2 < self.bucket(x).len() ==> #[trigger] self.bucket(
                        x,
                    )[t1] != #[trigger] self.bucket(x)[t2],
                forall|x: int, s: Seq<Pickup>|
                    0 <= x < 731 ==> (#[trigger] self.has_method(x, s) <==> (craftable_with(
                        pools,
                        quals,
                        hold_,
                        x,
                        s,
                    ) || (s.len() == 8 && sorted_pickups(s) && spec_craft(pools, quals, s) == x
                        && exists|t: int|
                        0 <= t < i && counts_of(s) == (#[trigger] picks@[t])@.update(
                            po as int,
                            n,
                        )))),
            decreases m - i,
        {
            proof {
                crate::enumerator::lemma_valid_counts_small(
                    picks@[i as int]@,
                    held2@,
                    other as int,
                );
            }
            let rec = make_recipe(&picks[i], pickup, n);
            let ghost ec = picks@[i as int]@;
            proof {
                assert(counts_of(rec@) == ec.update(po as int, n));
                lemma_counts_fits(rec@, hnew);
                assert forall|j: int|
                    0 <= j < 25 implies counts_of(rec@)[j] <= hnew[j] by {
                    if j != po as int {
                        assert(counts_of(rec@)[j] == ec[j]);
                        assert(ec[j] <= held2@[j]);
                    }
                }
            }
            let ghost s0 = *self;
            let id = self.craft(&rec);
            proof {
                assert forall|x: int| 0 <= x < 731 implies #[trigger] self.bucket(x) == s0.bucket(
                    x,
                ) by {
                }
                // the recipe is new: its pickup count sits at n, above the old held count
                assert forall|t: int|
                    0 <= t < self.bucket(id@).len() implies self.bucket(id@)[t] != rec@ by {
                    if self.bucket(id@)[t] == rec@ {
                        assert(s0.bucket(id@)[t] == rec@);
                        assert(s0.has_method(id@, rec@));
                        if craftable_with(pools, quals, hold_, id@, rec@) {
                            assert(count_pk(rec@, ord_pickup(po as int)) <= hold_[po as int]);
                            assert(counts_of(rec@)[po as int] == n);
                            lemma_count_le_len(rec@, ord_pickup(po as int));
                        } else {
                            assert(s0.has_method(id@, rec@));
                            let t2 = choose|t2: int|
                                0 <= t2 < i && counts_of(rec@) == (#[trigger] picks@[t2])@.update(
                                    po as int,
                                    n,
                                );
                            assert(picks@[t2]@ =~= picks@[i as int]@) by {
                                assert forall|j: int|
                                    0 <= j < 25 implies picks@[t2]@[j] == picks@[i as int]@[j] by {
                                    if j != po as int {
                                        assert(picks@[t2]@.update(po as int, n)[j] == picks@[
                                            i as int
                                        ]@.update(po as int, n)[j]);
                                    } else {
                                        assert(picks@[t2]@[j] <= held2@[j]);
                                        assert(picks@[i as int]@[j] <= held2@[j]);
                                        assert(held2@[j] == 0);
                                    }
                                }
                            }
                        }
                    }
                }
            }
            let ghost s1 = *self;
            self.insert_method(id.value() as usize, rec);
            proof {
                assert(self.bucket(id@) == s0.bucket(id@).push(rec@)) by {
                    assert(s1.bucket(id@) == s0.bucket(id@));
                }
                assert forall|x: int|
                    0 <= x < 731 && x != id@ implies #[trigger] self.bucket(x) == s0.bucket(
                    x,
                ) by {
                    assert(s1.bucket(x) == s0.bucket(x));
                }
                assert forall|x: int, s: Seq<Pickup>|
                    0 <= x < 731 implies (#[trigger] self.has_method(x, s) <==> (craftable_with(
                    pools,
                    quals,
                    hold_,
                    x,
                    s,
                ) || (s.len() == 8 && sorted_pickups(s) && spec_craft(pools, quals, s) == x
                    && exists|t: int|
                    0 <= t < i + 1 && counts_of(s) == (#[trigger] picks@[t])@.update(
                        po as int,
                        n,
                    )))) by {
                    if x == id@ {
                        if self.has_method(x, s) {
                            let t = choose|t: int|
                                0 <= t < self.bucket(x).len() && self.bucket(x)[t] == s;
                            if t < s0.bucket(x).len() {
                                assert(s0.has_method(x, s));
                            } else {
                                assert(s == rec@);
                                assert(counts_of(s) == (picks@[i as int])@.update(po as int, n));
                            }
                        }
                        if craftable_with(pools, quals, hold_, x, s) {
                            assert(s0.has_method(x, s));
                            let t = choose|t: int|
                                0 <= t < s0.bucket(x).len() && s0.bucket(x)[t] == s;
                            assert(self.bucket(x)[t] == s);
                        }
                        if s.len() == 8 && sorted_pickups(s) && spec_craft(pools, quals, s) == x
                            && exists|t: int|
                            0 <= t < i + 1 && counts_of(s) == (#[trigger] picks@[t])@.update(
                                po as int,
                                n,
                            ) {
                            let t = choose|t: int|
                                0 <= t < i + 1 && counts_of(s) == (#[trigger] picks@[t])@.update(
                                    po as int,
                                    n,
                                );
                            if t < i {
                                assert(s0.has_method(x, s));
                                let u = choose|u: int|
                                    0 <= u < s0.bucket(x).len() && s0.bucket(x)[u] == s;
                                assert(self.bucket(x)[u] == s);
                            } else {
                                assert(counts_of(s) == counts_of(rec@));
                                lemma_counts_unique(s, rec@);
                                assert(self.bucket(x)[self.bucket(x).len() - 1] == s);
                            }
                        }
                    } else {
                        assert(self.bucket(x) == s0.bucket(x));
                        assert(self.has_method(x, s) == s0.has_method(x, s));
                        if s.len() == 8 && sorted_pickups(s) && spec_craft(pools, quals, s) == x
                            && exists|t: int|
                            0 <= t < i + 1 && counts_of(s) == (#[trigger] picks@[t])@.update(
                                po as int,
                                n,
                            ) {
                            let t = choose|t: int|
                                0 <= t < i + 1 && counts_of(s) == (#[trigger] picks@[t])@.update(
                                    po as int,
                                    n,
                                );
                            if t == i as int {
                                assert(counts_of(s) == counts_of(rec@));
                                lemma_counts_unique(s, rec@);
                                assert(spec_craft(pools, quals, rec@) == id@);
                            }
                        }
                    }
                }
                assert forall|x: int, t: int|
                    0 <= x < 731 && 0 <= t < self.bucket(x).len() implies craftable_with(
                    pools,
                    quals,
                    hnew,
                    x,
                    #[trigger] self.bucket(x)[t],
                ) by {
                    if x == id@ && t == self.bucket(x).len() - 1 {
                        assert(self.bucket(x)[t] == rec@);
                    } else {
                        assert(self.bucket(x)[t] == s0.bucket(x)[t]);
                    }
                }
                assert forall|x: int, t1: int, t2: int|
                    0 <= x < 731 && 0 <= t1 < t2 < self.bucket(x).len() implies #[trigger] self
                    .bucket(x)[t1] != #[trigger] self.bucket(x)[t2] by {
                    if x == id@ && t2 == self.bucket(x).len() - 1 {
                        assert(self.bucket(x)[t2] == rec@);
                        assert(self.bucket(x)[t1] == s0.bucket(x)[t1]);
                    } else {
                        assert(self.bucket(x)[t1] == s0.bucket(x)[t1]);
                        assert(self.bucket(x)[t2] == s0.bucket(x)[t2]);
                    }
                }
            }
            i = i + 1;
        }
        proof {
            assert forall|x: int, s: Seq<Pickup>|
                0 <= x < 731 && #[trigger] craftable_with(pools, quals, hnew, x, s)
                implies self.has_method(x, s) by {
                if craftable_with(pools, quals, hold_, x, s) {
                } else {
                    let j = lemma_unfit_position(s, hold_, hnew, po as int);
                    assert(j == po as int);
                    assert(count_pk(s, ord_pickup(po as int)) <= hnew[po as int]);
                    assert(hnew[po as int] == n);
                    assert(count_pk(s, ord_pickup(po as int)) == n) by {
                        lemma_count_le_len(s, ord_pickup(po as int));
                    }
                    let ecounts = counts_of(s).update(po as int, 0u8);
                    assert(valid_pick(ecounts, held2@, other as int)) by {
                        lemma_csum_counts(s);
                        crate::enumerator::lemma_csum_update(counts_of(s), po as int, 0u8);
                        assert(counts_of(s)[po as int] == n) by {
                            lemma_count_le_len(s, ord_pickup(po as int));
                        }
                        assert forall|jj: int|
                            0 <= jj < 25 implies ecounts[jj] <= held2@[jj] by {
                            if jj != po as int {
                                assert(count_pk(s, ord_pickup(jj)) <= hnew[jj]) by {
                                    assert(craftable_with(pools, quals, hnew, x, s));
                                }
                                lemma_count_le_len(s, ord_pickup(jj));
                            }
                        }
                    }
                    let t = choose|t: int|
                        0 <= t < m && (#[trigger] picks@[t])@ == ecounts;
                    assert(counts_of(s) == picks@[t]@.update(po as int, n)) by {
                        assert(counts_of(s) =~= ecounts.update(po as int, n)) by {
                            assert(counts_of(s)[po as int] == n) by {
                                lemma_count_le_len(s, ord_pickup(po as int));
                            }
                        }
                    }
                }
            }
            assert forall|x: int, s: Seq<Pickup>|
                0 <= x < 731 && #[trigger] self.has_method(x, s) implies craftable_with(
                pools,
                quals,
                hnew,
                x,
                s,
            ) by {
                let t = choose|t: int| 0 <= t < self.bucket(x).len() && self.bucket(x)[t] == s;
            }
            assert(self.held_at() == old(self).held_at().update(
                pickup.ord(),
                sat_inc(old(self).held_at()[pickup.ord()]),
            ));
        }
    }
}

/// With at least eight units of one pickup either way, fitting is the
/// same: a recipe never uses more than eight of anything.
proof fn lemma_fits_high(s: Seq<Pickup>, a: Seq<u8>, b: Seq<u8>, po: int)
    requires
        a.len() == 25,
        b.len() == 25,
        0 <= po < 25,
        forall|i: int| 0 <= i < 25 && i != po ==> a[i] == b[i],
        a[po] >= 8,
        b[po] >= 8,
    ensures
        s.len() == 8 ==> (fits(s, a) == fits(s, b)),
{
    if s.len() == 8 {
        assert forall|i: int| 0 <= i < 25 implies (count_pk(s, ord_pickup(i)) <= a[i]) == (
        count_pk(s, ord_pickup(i)) <= b[i]) by {
            lemma_count_le_len(s, ord_pickup(i));
        }
        if fits(s, a) {
            assert(fits(s, b));
        }
        if fits(s, b) {
            assert(fits(s, a));
        }
    }
}


/// If a bag fits under the new counts but not the old, only the changed
/// position can be the reason.
proof fn lemma_unfit_position(s: Seq<Pickup>, hold_: Seq<u8>, hnew: Seq<u8>, po: int) -> (j: int)
    requires
        hold_.len() == 25,
        hnew.len() == 25,
        0 <= po < 25,
        forall|i: int| 0 <= i < 25 && i != po ==> hold_[i] == hnew[i],
        fits(s, hnew),
        !fits(s, hold_),
    ensures
        j == po,
        count_pk(s, ord_pickup(po)) > hold_[po],
{
    let j = choose|j: int| 0 <= j < 25 && count_pk(s, ord_pickup(j)) > hold_[j];
    assert(count_pk(s, ord_pickup(j)) <= hnew[j]);
    j
}

/// Fitting restated over the count vector.
proof fn lemma_counts_fits(s: Seq<Pickup>, held: Seq<u8>)
    requires
        s.len() <= 8,
        held.len() == 25,
        forall|j: int| 0 <= j < 25 ==> #[trigger] counts_of(s)[j] <= held[j],
    ensures
        fits(s, held),
{
    assert forall|i: int| 0 <= i < 25 implies count_pk(s, ord_pickup(i)) <= held[i] by {
        lemma_count_le_len(s, ord_pickup(i));
        assert(counts_of(s)[i] == count_pk(s, ord_pickup(i)) as u8);
    }
}

impl DeltaCrafter {
    /// Lower a pickup's held count by one (a no-op at zero) and take every
    /// recipe that is no longer craftable out of the index. The brute-force
    /// invariant `wf` holds again afterwards.
    pub fn remove_pickup(&mut self, pickup: Pickup)
        requires
            old(self).wf(),
        ensures
            final(self).wf(),
            final(self).held_at() == old(self).held_at().update(
                pickup.ord(),
                sat_dec(old(self).held_at()[pickup.ord()]),
            ),
            final(self).pools_at() == old(self).pools_at(),
            final(self).quals_at() == old(self).quals_at(),
            final(self).crafter_at() == old(self).crafter_at(),
    {
        let po = pickup.ordinal();
        let held_before = self.held[po];
        if held_before == 0 {
            proof {
                assert(self.held@ =~= old(self).held@.update(po as int, 0u8));
            }
            return;
        }
        let n = held_before;
        let ghost hold_ = old(self).held@;
        let ghost pools = old(self).pools_at();
        let ghost quals = old(self).quals_at();
        self.held.set(po, n - 1);
        let ghost hnew = self.held@;
        proof {
            lemma_cache_wf_frame(*old(self), *self);
            assert forall|x: int| 0 <= x < 731 implies #[trigger] self.bucket(x) == old(
                self,
            ).bucket(x) by {
                assert(self.methods@[x] == old(self).methods@[x]);
            }
        }
        if n > 8 {
            proof {
                assert forall|x: int, t: int|
                    0 <= x < 731 && 0 <= t < self.bucket(x).len() implies self.craftable(
                    x,
                    #[trigger] self.bucket(x)[t],
                ) by {
                    assert(self.bucket(x)[t] == old(self).bucket(x)[t]);
                    assert(old(self).craftable(x, old(self).bucket(x)[t]));
                    lemma_fits_high(self.bucket(x)[t], hold_, hnew, po as int);
                }
                assert forall|x: int, t1: int, t2: int|
                    0 <= x < 731 && 0 <= t1 < t2 < self.bucket(x).len() implies #[trigger] self
                    .bucket(x)[t1] != #[trigger] self.bucket(x)[t2] by {
                    assert(self.bucket(x) == old(self).bucket(x));
                }
                assert forall|x: int, s: Seq<Pickup>|
                    0 <= x < 731 && #[trigger] self.craftable(x, s) implies self.has_method(
                    x,
                    s,
                ) by {
                    lemma_fits_high(s, hold_, hnew, po as int);
                    assert(old(self).craftable(x, s));
                    assert(old(self).has_method(x, s));
                    let t = choose|t: int|
                        0 <= t < old(self).bucket(x).len() && old(self).bucket(x)[t] == s;
                    assert(self.bucket(x)[t] == s);
                }
                assert(self.held_at() == old(self).held_at().update(
                    pickup.ord(),
                    sat_dec(old(self).held_at()[pickup.ord()]),
                ));
            }
            return;
        }
        let other = 8 - n;
        let mut held2: Vec<u8> = Vec::new();
        let mut z: usize = 0;
        while z < 25
            invariant
                z <= 25,
                self.held@.len() == 25,
                held2@ =~= self.held@.subrange(0, z as int),
            decreases 25 - z,
        {
            held2.push(self.held[z]);
            z = z + 1;
        }
        held2.set(po, 0);
        proof {
            assert(held2@ =~= hnew.update(po as int, 0u8));
            assert(held2@ =~= hold_.update(po as int, 0u8));
        }
        let picks = all_picks(&held2, other);
        let m = picks.len();
        proof {
            assert forall|x: int, s: Seq<Pickup>|
                0 <= x < 731 implies (#[trigger] self.has_method(x, s) <==> (craftable_with(
                pools,
                quals,
                hold_,
                x,
                s,
            ) && !(exists|t: int|
                0 <= t < 0 && counts_of(s) == (#[trigger] picks@[t])@.update(po as int, n)))) by {
                assert(self.bucket(x) == old(self).bucket(x));
                if self.has_method(x, s) {
                    let t = choose|t: int|
                        0 <= t < self.bucket(x).len() && self.bucket(x)[t] == s;
                    assert(old(self).bucket(x)[t] == s);
                    assert(old(self).craftable(x, old(self).bucket(x)[t]));
                }
                if craftable_with(pools, quals, hold_, x, s) {
                    assert(old(self).craftable(x, s));
                    assert(old(self).has_method(x, s));
                    let t = choose|t: int|
                        0 <= t < old(self).bucket(x).len() && old(self).bucket(x)[t] == s;
                    assert(self.bucket(x)[t] == s);
                }
            }
        }
        let mut i: usize = 0;
        while i < m
            invariant
                i <= m,
                m == picks@.len(),
                self.cache_wf(),
                self.buckets_len() == 731,
                self.held@ == hnew,
                self.pools_at() == pools,
                self.quals_at() == quals,
                self.crafter_at() == old(self).crafter_at(),
                pickup.ord() == po as int,
                po < 25,
                1 <= n <= 8,
                other == 8 - n,
                hold_.len() == 25,
                hnew.len() == 25,
                hnew == hold_.update(po as int, (n - 1) as u8),
                hold_[po as int] == n,
                held2@.len() == 25,
                held2@ == hold_.update(po as int, 0u8),
                forall|t: int|
                    0 <= t < m ==> valid_pick((#[trigger] picks@[t])@, held2@, other as int),
                forall|t1: int, t2: int|
                    0 <= t1 < t2 < m ==> (#[trigger] picks@[t1])@ != (#[trigger] picks@[t2])@,
                forall|d: Seq<u8>|
                    #[trigger] valid_pick(d, held2@, other as int) ==> exists|t: int|
                        0 <= t < m && (#[trigger] picks@[t])@ == d,
                forall|x: int, t: int|
                    0 <= x < 731 && 0 <= t < self.bucket(x).len() ==> craftable_with(
                        pools,
                        quals,
                        hold_,
                        x,
                        #[trigger] self.bucket(x)[t],
                    ),
                forall|x: int, t1: int, t2: int|
                    0 <= x < 731 && 0 <= t1 < t2 < self.bucket(x).len() ==> #[trigger] self.bucket(
                        x,
                    )[t1] != #[trigger] self.bucket(x)[t2],
                forall|x: int, s: Seq<Pickup>|
                    0 <= x < 731 ==> (#[trigger] self.has_method(x, s) <==> (craftable_with(
                        pools,
                        quals,
                        hold_,
                        x,
                        s,
                    ) && !(exists|t: int|
                        0 <= t < i && counts_of(s) == (#[trigger] picks@[t])@.update(
                            po as int,
                            n,
                        )))),
            decreases m - i,
        {
            proof {
                crate::enumerator::lemma_valid_counts_small(
                    picks@[i as int]@,
                    held2@,
                    other as int,
                );
            }
            let rec = make_recipe(&picks[i], pickup, n);
            let ghost ec = picks@[i as int]@;
            proof {
                assert(counts_of(rec@) == ec.update(po as int, n));
            }
            let ghost s0 = *self;
            let id = self.craft(&rec);
            proof {
                assert forall|x: int| 0 <= x < 731 implies #[trigger] self.bucket(x) == s0.bucket(
                    x,
                ) by {
                }
                // the recipe is still present: it was craftable under the old
                // counts and no earlier step removed it
                assert(craftable_with(pools, quals, hold_, id@, rec@)) by {
                    lemma_counts_fits(rec@, hold_);
                    assert forall|j: int|
                        0 <= j < 25 implies counts_of(rec@)[j] <= hold_[j] by {
                        if j != po as int {
                            assert(counts_of(rec@)[j] == ec[j]);
                            assert(ec[j] <= held2@[j]);
                        }
                    }
                }
                assert(!(exists|t: int|
                    0 <= t < i && counts_of(rec@) == (#[trigger] picks@[t])@.update(
                        po as int,
                        n,
                    ))) by {
                    if exists|t: int|
                        0 <= t < i && counts_of(rec@) == (#[trigger] picks@[t])@.update(
                            po as int,
                            n,
                        ) {
                        let t2 = choose|t2: int|
                            0 <= t2 < i && counts_of(rec@) == (#[trigger] picks@[t2])@.update(
                                po as int,
                                n,
                            );
                        assert(picks@[t2]@ =~= picks@[i as int]@) by {
                            assert forall|j: int|
                                0 <= j < 25 implies picks@[t2]@[j] == picks@[i as int]@[j] by {
                                if j != po as int {
                                    assert(picks@[t2]@.update(po as int, n)[j] == picks@[
                                        i as int
                                    ]@.update(po as int, n)[j]);
                                } else {
                                    assert(picks@[t2]@[j] <= held2@[j]);
                                    assert(picks@[i as int]@[j] <= held2@[j]);
                                    assert(held2@[j] == 0);
                                }
                            }
                        }
                    }
                }
                assert(s0.has_method(id@, rec@));
                let tw = choose|tw: int|
                    0 <= tw < s0.bucket(id@).len() && s0.bucket(id@)[tw] == rec@;
                assert(self.bucket(id@)[tw] == rec@);
            }
            let ghost s1 = *self;
            self.remove_method(id.value() as usize, &rec);
            proof {
                assert forall|x: int|
                    0 <= x < 731 && x != id@ implies #[trigger] self.bucket(x) == s0.bucket(
                    x,
                ) by {
                    assert(s1.bucket(x) == s0.bucket(x));
                }
                assert forall|s: Seq<Pickup>|
                    self.has_method(id@, s) <==> (s0.has_method(id@, s) && s != rec@) by {
                    assert(s1.has_method(id@, s) == s0.has_method(id@, s));
                }
                assert forall|x: int, s: Seq<Pickup>|
                    0 <= x < 731 implies (#[trigger] self.has_method(x, s) <==> (craftable_with(
                    pools,
                    quals,
                    hold_,
                    x,
                    s,
                ) && !(exists|t: int|
                    0 <= t < i + 1 && counts_of(s) == (#[trigger] picks@[t])@.update(
                        po as int,
                        n,
                    )))) by {
                    if x == id@ {
                        if self.has_method(x, s) {
                            assert(s0.has_method(x, s) && s != rec@);
                            assert(craftable_with(pools, quals, hold_, x, s));
                            if exists|t: int|
                                0 <= t < i + 1 && counts_of(s) == (#[trigger] picks@[t])@.update(
                                    po as int,
                                    n,
                                ) {
                                let t = choose|t: int|
                                    0 <= t < i + 1 && counts_of(s) == (#[trigger] picks@[
                                        t
                                    ])@.update(po as int, n);
                                if t == i as int {
                                    assert(counts_of(s) == counts_of(rec@));
                                    lemma_counts_unique(s, rec@);
                                } else {
                                    assert(!s0.has_method(x, s));
                                }
                            }
                        }
                        if craftable_with(pools, quals, hold_, x, s) && !(exists|t: int|
                            0 <= t < i + 1 && counts_of(s) == (#[trigger] picks@[t])@.update(
                                po as int,
                                n,
                            )) {
                            assert(!(exists|t: int|
                                0 <= t < i && counts_of(s) == (#[trigger] picks@[t])@.update(
                                    po as int,
                                    n,
                                )));
                            assert(s0.has_method(x, s));
                            assert(s != rec@) by {
                                if s == rec@ {
                                    assert(counts_of(s) == picks@[i as int]@.update(po as int, n));
                                }
                            }
                        }
                    } else {
                        assert(self.has_method(x, s) == s0.has_method(x, s));
                        if craftable_with(pools, quals, hold_, x, s) {
                            if exists|t: int|
                                0 <= t < i + 1 && counts_of(s) == (#[trigger] picks@[t])@.update(
                                    po as int,
                                    n,
                                ) {
                                let t = choose|t: int|
                                    0 <= t < i + 1 && counts_of(s) == (#[trigger] picks@[
                                        t
                                    ])@.update(po as int, n);
                                if t == i as int {
                                    assert(counts_of(s) == counts_of(rec@));
                                    lemma_counts_unique(s, rec@);
                                    assert(spec_craft(pools, quals, s) == id@);
                                }
                            }
                        }
                    }
                }
                assert forall|x: int, t: int|
                    0 <= x < 731 && 0 <= t < self.bucket(x).len() implies craftable_with(
                    pools,
                    quals,
                    hold_,
                    x,
                    #[trigger] self.bucket(x)[t],
                ) by {
                    if x == id@ {
                        let u = choose|u: int|
                            0 <= u < s1.bucket(x).len() && s1.bucket(x)[u] == #[trigger] self
                                .bucket(x)[t];
                        assert(s0.bucket(x)[u] == self.bucket(x)[t]);
                    } else {
                        assert(self.bucket(x)[t] == s0.bucket(x)[t]);
                    }
                }
                assert forall|x: int, t1: int, t2: int|
                    0 <= x < 731 && 0 <= t1 < t2 < self.bucket(x).len() implies #[trigger] self
                    .bucket(x)[t1] != #[trigger] self.bucket(x)[t2] by {
                    if x != id@ {
                        assert(self.bucket(x)[t1] == s0.bucket(x)[t1]);
                        assert(self.bucket(x)[t2] == s0.bucket(x)[t2]);
                    }
                }
            }
            i = i + 1;
        }
        proof {
            assert forall|x: int, s: Seq<Pickup>|
                0 <= x < 731 && #[trigger] craftable_with(pools, quals, hnew, x, s)
                implies self.has_method(x, s) by {
                assert(craftable_with(pools, quals, hold_, x, s)) by {
                    assert forall|j: int|
                        0 <= j < 25 implies count_pk(s, ord_pickup(j)) <= hold_[j] by {
                        assert(count_pk(s, ord_pickup(j)) <= hnew[j]);
                    }
                }
                assert(!(exists|t: int|
                    0 <= t < m && counts_of(s) == (#[trigger] picks@[t])@.update(
                        po as int,
                        n,
                    ))) by {
                    if exists|t: int|
                        0 <= t < m && counts_of(s) == (#[trigger] picks@[t])@.update(
                            po as int,
                            n,
                        ) {
                        let t = choose|t: int|
                            0 <= t < m && counts_of(s) == (#[trigger] picks@[t])@.update(
                                po as int,
                                n,
                            );
                        assert(counts_of(s)[po as int] == n);
                        assert(count_pk(s, ord_pickup(po as int)) <= hnew[po as int]);
                        lemma_count_le_len(s, ord_pickup(po as int));
                        assert(hnew[po as int] == n - 1);
                    }
                }
            }
            assert forall|x: int, s: Seq<Pickup>|
                0 <= x < 731 && #[trigger] self.has_method(x, s) implies craftable_with(
                pools,
                quals,
                hnew,
                x,
                s,
            ) by {
                assert(craftable_with(pools, quals, hold_, x, s));
                assert(!(exists|t: int|
                    0 <= t < m && counts_of(s) == (#[trigger] picks@[t])@.update(po as int, n)));
                assert(count_pk(s, ord_pickup(po as int)) <= n) by {
                    assert(count_pk(s, ord_pickup(po as int)) <= hold_[po as int]);
                }
                assert(count_pk(s, ord_pickup(po as int)) != n) by {
                    if count_pk(s, ord_pickup(po as int)) == n {
                        let ecounts = counts_of(s).update(po as int, 0u8);
                        assert(valid_pick(ecounts, held2@, other as int)) by {
                            lemma_csum_counts(s);
                            crate::enumerator::lemma_csum_update(counts_of(s), po as int, 0u8);
                            assert(counts_of(s)[po as int] == n) by {
                                lemma_count_le_len(s, ord_pickup(po as int));
                            }
                            assert forall|jj: int|
                                0 <= jj < 25 implies ecounts[jj] <= held2@[jj] by {
                                if jj != po as int {
                                    assert(count_pk(s, ord_pickup(jj)) <= hold_[jj]);
                                    lemma_count_le_len(s, ord_pickup(jj));
                                }
                            }
                        }
                        let t = choose|t: int|
                            0 <= t < m && (#[trigger] picks@[t])@ == ecounts;
                        assert(counts_of(s) == picks@[t]@.update(po as int, n)) by {
                            assert(counts_of(s) =~= ecounts.update(po as int, n)) by {
                                assert(counts_of(s)[po as int] == n) by {
                                    lemma_count_le_len(s, ord_pickup(po as int));
                                }
                            }
                        }
                    }
                }
                assert forall|j: int|
                    0 <= j < 25 implies count_pk(s, ord_pickup(j)) <= hnew[j] by {
                    if j != po as int {
                        assert(count_pk(s, ord_pickup(j)) <= hold_[j]);
                    }
                }
            }
            assert forall|x: int, t: int|
                0 <= x < 731 && 0 <= t < self.bucket(x).len() implies self.craftable(
                x,
                #[trigger] self.bucket(x)[t],
            ) by {
                assert(self.has_method(x, self.bucket(x)[t]));
            }
            assert(self.held_at() == old(self).held_at().update(
                pickup.ord(),
                sat_dec(old(self).held_at()[pickup.ord()]),
            ));
        }
    }
}

// ------------------------------------------------------------------
// laws

/// The continuous invariant, read off `wf`: an item's indexed recipes are
/// exactly the brute-force set of eight-pickup sub-bags of the held counts
/// that craft to it.
pub proof fn lemma_brute_force_invariant(d: DeltaCrafter, x: int, s: Seq<Pickup>)
    requires
        d.wf(),
        0 <= x < 731,
    ensures
        d.has_method(x, s) <==> d.craftable(x, s),
{
    if d.has_method(x, s) {
        let t = choose|t: int| 0 <= t < d.bucket(x).len() && d.bucket(x)[t] == s;
        assert(d.craftable(x, d.bucket(x)[t]));
    }
}

/// Two well-formed indexes over the same catalog and the same held counts
/// index exactly the same recipes; in particular, a reset index matches a
/// freshly built one.
pub proof fn lemma_state_determined(a: DeltaCrafter, b: DeltaCrafter)
    requires
        a.wf(),
        b.wf(),
        a.pools_at() == b.pools_at(),
        a.quals_at() == b.quals_at(),
        a.held_at() == b.held_at(),
    ensures
        forall|x: int, s: Seq<Pickup>|
            0 <= x < 731 ==> (#[trigger] a.has_method(x, s) <==> #[trigger] b.has_method(x, s)),
{
    assert forall|x: int, s: Seq<Pickup>|
        0 <= x < 731 implies (#[trigger] a.has_method(x, s) <==> #[trigger] b.has_method(
        x,
        s,
    )) by {
        lemma_brute_force_invariant(a, x, s);
        lemma_brute_force_invariant(b, x, s);
    }
}

/// Removing a pickup right after adding it restores the held counts and
/// every recipe set to exactly their prior state (for counts below the
/// saturation point, as the add would otherwise be lost).
pub proof fn lemma_add_remove_restores(
    pre: DeltaCrafter,
    mid: DeltaCrafter,
    post: DeltaCrafter,
    p: Pickup,
)
    requires
        pre.wf(),
        mid.wf(),
        post.wf(),
        pre.pools_at() == mid.pools_at() && mid.pools_at() == post.pools_at(),
        pre.quals_at() == mid.quals_at() && mid.quals_at() == post.quals_at(),
        pre.held_at().len() == 25,
        0 <= p.ord() < 25,
        pre.held_at()[p.ord()] < 255,
        mid.held_at() == pre.held_at().update(p.ord(), sat_inc(pre.held_at()[p.ord()])),
        post.held_at() == mid.held_at().update(p.ord(), sat_dec(mid.held_at()[p.ord()])),
    ensures
        post.held_at() == pre.held_at(),
        forall|x: int, s: Seq<Pickup>|
            0 <= x < 731 ==> (#[trigger] post.has_method(x, s) <==> #[trigger] pre.has_method(
                x,
                s,
            )),
{
    assert(post.held_at() =~= pre.held_at());
    lemma_state_determined(pre, post);
}

} // verus!
