//! The pure crafting rule: canonical recipe in, item id out.
//!
//! Crafting warms the mixing generator over the recipe, totals the recipe's
//! fixed weights, builds a weighted item table from the pools the recipe
//! activates, and draws one item from it; every arithmetic step of the draw
//! is binary32, computed on bit patterns.

use vstd::prelude::*;
use vstd::pervasive::VecAdditionalExecFns;
use crate::pickup::Pickup;
use crate::recipe::InternalPickups;
use crate::rng::{Rng, mix_step};
use crate::ieee754::{mul_spec, add_spec, sub_spec, cvt_spec, is_neg_spec};
use crate::ieee754::{mul_bits, add_bits, sub_bits, cvt_bits, is_neg};
use crate::catalog::{BasicCrafter, InternalItemId};

verus! {

/// The fixed scaling constant of the draw: the binary32 pattern
/// `0x2F7FFFFE`, reproduced exactly for compatibility.
pub const MIX_SCALE_BITS: u32 = 0x2F7F_FFFE;

/// Seed of the generator after one warm-up step per recipe slot, in stored
/// order.
pub open spec fn spec_warm_seed(s: Seq<Pickup>) -> u32
    decreases s.len(),
{
    if s.len() == 0 {
        0x7777_7770u32
    } else {
        let prev = spec_warm_seed(s.drop_last());
        let t = s.last().shifts_spec();
        mix_step(prev, t.0, t.1, t.2)
    }
}

/// Occurrences of a pickup among the slots.
pub open spec fn count_pk(s: Seq<Pickup>, p: Pickup) -> int
    decreases s.len(),
{
    if s.len() == 0 {
        0int
    } else {
        count_pk(s.drop_last(), p) + if s.last() == p {
            1int
        } else {
            0int
        }
    }
}

/// Sum of the slots' fixed weights (not deduplicated).
pub open spec fn weight_sum(s: Seq<Pickup>) -> int
    decreases s.len(),
{
    if s.len() == 0 {
        0int
    } else {
        weight_sum(s.drop_last()) + s.last().weight_spec()
    }
}

/// The ordered pool weight list the draw walks: treasure, shop and boss
/// always, the count-driven pools next, and the planetarium pool only when
/// the recipe holds none of red heart, penny, key or bomb.
pub open spec fn spec_pool_weight_list(s: Seq<Pickup>) -> Seq<(int, u32)> {
    let base = seq![
        (0int, 0x3F80_0000u32),
        (1int, 0x4000_0000u32),
        (2int, 0x4000_0000u32),
        (4int, cvt_spec((10 * count_pk(s, Pickup::EternalHeart)) as u32)),
        (3int, cvt_spec((10 * count_pk(s, Pickup::BlackHeart)) as u32)),
        (5int, cvt_spec((5 * count_pk(s, Pickup::BoneHeart)) as u32)),
        (8int, cvt_spec((10 * count_pk(s, Pickup::GoldHeart)) as u32)),
        (12int, cvt_spec((10 * count_pk(s, Pickup::RottenHeart)) as u32)),
        (9int, cvt_spec((10 * count_pk(s, Pickup::CrackedKey)) as u32)),
    ];
    if count_pk(s, Pickup::RedHeart) + count_pk(s, Pickup::Penny) + count_pk(s, Pickup::Key)
        + count_pk(s, Pickup::Bomb) == 0 {
        base.push((26int, cvt_spec((10 * count_pk(s, Pickup::Rune)) as u32)))
    } else {
        base
    }
}

/// Lower quality bound a recipe weight total maps to (first strictly-greater
/// threshold wins, highest first).
pub open spec fn quality_lo(v: int) -> int {
    if v > 34 {
        4int
    } else if v > 30 {
        3int
    } else if v > 26 {
        2int
    } else if v > 22 {
        1int
    } else if v > 18 {
        1int
    } else if v > 14 {
        1int
    } else if v > 8 {
        0int
    } else {
        0int
    }
}

/// Upper quality bound a recipe weight total maps to.
pub open spec fn quality_hi(v: int) -> int {
    if v > 34 {
        4int
    } else if v > 30 {
        4int
    } else if v > 26 {
        4int
    } else if v > 22 {
        4int
    } else if v > 18 {
        3int
    } else if v > 14 {
        2int
    } else if v > 8 {
        2int
    } else if v > 0 {
        1int
    } else {
        0int
    }
}

/// Accumulate one pool's items into the per-item weights and the grand
/// total, ascending by item id.
pub open spec fn accum_items(
    tbl: Seq<u32>,
    quals: Seq<u32>,
    pw: u32,
    lo: int,
    hi: int,
    iw: Seq<u32>,
    wt: u32,
    i: int,
) -> (Seq<u32>, u32)
    decreases 731 - i,
{
    if i < 0 || i >= 731 {
        (iw, wt)
    } else {
        let w = tbl[i];
        let q = quals[i];
        if w != 0 && lo <= q <= hi {
            let fw = mul_spec(pw, w);
            accum_items(
                tbl,
                quals,
                pw,
                lo,
                hi,
                iw.update(i, add_spec(iw[i], fw)),
                add_spec(wt, fw),
                i + 1,
            )
        } else {
            accum_items(tbl, quals, pw, lo, hi, iw, wt, i + 1)
        }
    }
}

/// Walk the pool weight list, skipping zero-weight pools.
pub open spec fn accum_pools(
    pools: Seq<Seq<u32>>,
    quals: Seq<u32>,
    lst: Seq<(int, u32)>,
    wsum: int,
    iw: Seq<u32>,
    wt: u32,
    k: int,
) -> (Seq<u32>, u32)
    decreases lst.len() - k,
{
    if k < 0 || k >= lst.len() {
        (iw, wt)
    } else {
        let pid = lst[k].0;
        let bits = lst[k].1;
        if bits == 0 {
            accum_pools(pools, quals, lst, wsum, iw, wt, k + 1)
        } else {
            let qcv = if pid == 3 || pid == 4 || pid == 5 {
                wsum - 5
            } else {
                wsum
            };
            let st = accum_items(pools[pid], quals, bits, quality_lo(qcv), quality_hi(qcv), iw, wt, 0);
            accum_pools(pools, quals, lst, wsum, st.0, st.1, k + 1)
        }
    }
}

/// Walk the accumulated item weights in ascending id order, subtracting each
/// from the target; the first item that drives the target below zero wins,
/// and the fixed fallback id 25 stands when none does.
pub open spec fn spec_select(iw: Seq<u32>, target: u32, i: int) -> int
    decreases 731 - i,
{
    if i < 0 || i >= 731 {
        25int
    } else {
        let t2 = sub_spec(target, iw[i]);
        if is_neg_spec(t2) {
            i
        } else {
            spec_select(iw, t2, i + 1)
        }
    }
}

/// The crafting rule over a catalog and a canonical recipe.
pub open spec fn spec_craft(pools: Seq<Seq<u32>>, quals: Seq<u32>, s: Seq<Pickup>) -> int {
    let drawn = mix_step(spec_warm_seed(s), 1, 21, 20);
    let lst = spec_pool_weight_list(s);
    let zero_iw = Seq::new(731, |i: int| 0u32);
    let st = accum_pools(pools, quals, lst, weight_sum(s), zero_iw, 0u32, 0);
    let target = mul_spec(mul_spec(cvt_spec(drawn), MIX_SCALE_BITS), st.1);
    spec_select(st.0, target, 0)
}

/// Count a pickup's occurrences in a recipe.
fn count_units(r: &InternalPickups, p: Pickup) -> (c: u32)
    requires
        r@.len() <= 8,
    ensures
        c as int == count_pk(r@, p),
        c <= 8,
{
    let n = r.len();
    let mut c: u32 = 0;
    let mut i: usize = 0;
    while i < n
        invariant
            i <= n,
            n == r@.len() <= 8,
            c as int == count_pk(r@.subrange(0, i as int), p),
            c <= i,
        decreases n - i,
    {
        proof {
            let pre = r@.subrange(0, i as int + 1);
            assert(pre.drop_last() =~= r@.subrange(0, i as int));
            assert(pre.last() == r@[i as int]);
        }
        if matches_pickup(r.slot(i), p) {
            c = c + 1;
        }
        i = i + 1;
    }
    proof {
        assert(r@.subrange(0, n as int) =~= r@);
    }
    c
}

/// Structural equality of two pickups via their ordinals.
fn matches_pickup(a: Pickup, b: Pickup) -> (r: bool)
    ensures
        r <==> a == b,
{
    let ra = a.ordinal() == b.ordinal();
    proof {
        crate::pickup::lemma_ord_injective(a, b);
    }
    ra
}

/// Sum of the recipe's fixed weights.
fn total_weight(r: &InternalPickups) -> (w: u32)
    requires
        r@.len() <= 8,
    ensures
        w as int == weight_sum(r@),
        w <= 80,
{
    let n = r.len();
    let mut w: u32 = 0;
    let mut i: usize = 0;
    while i < n
        invariant
            i <= n,
            n == r@.len() <= 8,
            w as int == weight_sum(r@.subrange(0, i as int)),
            w <= 10 * i,
        decreases n - i,
    {
        proof {
            let pre = r@.subrange(0, i as int + 1);
            assert(pre.drop_last() =~= r@.subrange(0, i as int));
            assert(pre.last() == r@[i as int]);
        }
        w = w + r.slot(i).weight();
        i = i + 1;
    }
    proof {
        assert(r@.subrange(0, n as int) =~= r@);
    }
    w
}

/// Quality bounds for a weight total.
fn quality_bounds(v: u32) -> (b: (u32, u32))
    ensures
        b.0 as int == quality_lo(v as int),
        b.1 as int == quality_hi(v as int),
{
    if v > 34 {
        (4, 4)
    } else if v > 30 {
        (3, 4)
    } else if v > 26 {
        (2, 4)
    } else if v > 22 {
        (1, 4)
    } else if v > 18 {
        (1, 3)
    } else if v > 14 {
        (1, 2)
    } else if v > 8 {
        (0, 2)
    } else if v > 0 {
        (0, 1)
    } else {
        (0, 0)
    }
}

impl BasicCrafter {
    /// Craft one item from a canonical recipe. Pure and total: equal recipes
    /// always give equal items, and the result is pinned to the crafting
    /// rule over this catalog.
    pub fn craft(&self, pickups: &InternalPickups) -> (r: InternalItemId)
        requires
            self.wf(),
            pickups.wf(),
        ensures
            r@ == spec_craft(self.pools_at(), self.quals_at(), pickups@),
            0 <= r@ <= 730,
    {
        // Warm the generator over the recipe in stored order.
        let mut rng = Rng::new();
        let n = pickups.len();
        let mut i: usize = 0;
        while i < n
            invariant
                i <= n,
                n == pickups@.len() == 8,
                rng.seed == spec_warm_seed(pickups@.subrange(0, i as int)),
            decreases n - i,
        {
            proof {
                let pre = pickups@.subrange(0, i as int + 1);
                assert(pre.drop_last() =~= pickups@.subrange(0, i as int));
                assert(pre.last() == pickups@[i as int]);
            }
            let t = pickups.slot(i).shifts();
            rng.set_shifts(t);
            rng.next();
            i = i + 1;
        }
        proof {
            assert(pickups@.subrange(0, n as int) =~= pickups@);
        }
        rng.set_shifts((1, 21, 20));
        let drawn = rng.next();

        let wsum = total_weight(pickups);
        proof {
            lemma_weight_sum_low(pickups@);
        }

        // The ordered pool weight list.
        let mut pw_list: Vec<(u32, u32)> = Vec::new();
        pw_list.push((0, 0x3F80_0000));
        pw_list.push((1, 0x4000_0000));
        pw_list.push((2, 0x4000_0000));
        pw_list.push((4, cvt_bits(10 * count_units(pickups, Pickup::EternalHeart))));
        pw_list.push((3, cvt_bits(10 * count_units(pickups, Pickup::BlackHeart))));
        pw_list.push((5, cvt_bits(5 * count_units(pickups, Pickup::BoneHeart))));
        pw_list.push((8, cvt_bits(10 * count_units(pickups, Pickup::GoldHeart))));
        pw_list.push((12, cvt_bits(10 * count_units(pickups, Pickup::RottenHeart))));
        pw_list.push((9, cvt_bits(10 * count_units(pickups, Pickup::CrackedKey))));
        let combined = count_units(pickups, Pickup::RedHeart) + count_units(pickups, Pickup::Penny)
            + count_units(pickups, Pickup::Key) + count_units(pickups, Pickup::Bomb);
        if combined == 0 {
            pw_list.push((26, cvt_bits(10 * count_units(pickups, Pickup::Rune))));
        }
        let ghost lst = spec_pool_weight_list(pickups@);
        proof {
            assert(pw_list@.len() == lst.len());
            assert forall|k: int| 0 <= k < lst.len() implies (#[trigger] pw_list@[k]).0 as int
                == lst[k].0 && pw_list@[k].1 == lst[k].1 by {
            }
        }

        // Accumulate item weights pool by pool.
        let mut iw: Vec<u32> = Vec::new();
        let mut z: usize = 0;
        while z < 731
            invariant
                z <= 731,
                iw@.len() == z as int,
                forall|t: int| 0 <= t < z ==> #[trigger] iw@[t] == 0u32,
            decreases 731 - z,
        {
            iw.push(0);
            z = z + 1;
        }
        proof {
            assert(iw@ =~= Seq::new(731, |i: int| 0u32));
        }
        let mut wt: u32 = 0;
        let ghost st_final = accum_pools(
            self.pools_at(),
            self.quals_at(),
            lst,
            wsum as int,
            iw@,
            0u32,
            0,
        );
        let nk = pw_list.len();
        let mut k: usize = 0;
        while k < nk
            invariant
                k <= nk,
                nk == lst.len(),
                pw_list@.len() == lst.len(),
                forall|t: int|
                    0 <= t < lst.len() ==> (#[trigger] pw_list@[t]).0 as int == lst[t].0
                        && pw_list@[t].1 == lst[t].1,
                forall|t: int| 0 <= t < lst.len() ==> 0 <= (#[trigger] lst[t]).0 < 31,
                forall|t: int|
                    0 <= t < pw_list@.len() ==> (#[trigger] pw_list@[t]).1 < 0x8000_0000,
                8 <= wsum <= 80,
                self.wf(),
                iw@.len() == 731,
                forall|t: int| 0 <= t < 731 ==> (#[trigger] iw@[t]) < 0x8000_0000,
                wt < 0x8000_0000,
                accum_pools(self.pools_at(), self.quals_at(), lst, wsum as int, iw@, wt, k as int)
                    == st_final,
            decreases nk - k,
        {
            proof {
                crate::catalog::lemma_catalog_views(self);
            }
            let (pid, bits) = pw_list[k];
            if bits != 0 {
                let mut qcv = wsum;
                if pid == 3 || pid == 4 || pid == 5 {
                    qcv = qcv - 5;
                }
                let (lo, hi) = quality_bounds(qcv);
                let tbl = &self.pool_item_weights[pid as usize];
                let ghost tbl_s = self.pools_at()[pid as int];
                proof {
                    assert(tbl@ == tbl_s);
                }
                let ghost st_pool = accum_items(
                    tbl_s,
                    self.quals_at(),
                    bits,
                    lo as int,
                    hi as int,
                    iw@,
                    wt,
                    0,
                );
                let mut i: usize = 0;
                while i < 731
                    invariant
                        i <= 731,
                        iw@.len() == 731,
                        tbl@ == tbl_s,
                        tbl_s.len() == 731,
                        self.quals_at().len() == 731,
                        self.item_qualities@ == self.quals_at(),
                        forall|t: int| 0 <= t < 731 ==> (#[trigger] iw@[t]) < 0x8000_0000,
                        wt < 0x8000_0000,
                        bits != 0,
                        bits < 0x8000_0000,
                        forall|t: int| 0 <= t < 731 ==> crate::catalog::weight_cell_ok(#[trigger] tbl_s[t]),
                        accum_items(tbl_s, self.quals_at(), bits, lo as int, hi as int, iw@, wt, i as int)
                            == st_pool,
                    decreases 731 - i,
                {
                    let w = tbl[i];
                    let q = self.item_qualities[i];
                    if w != 0 && lo <= q && q <= hi {
                        let fw = mul_bits(bits, w);
                        let prev = iw[i];
                        iw.set(i, add_bits(prev, fw));
                        wt = add_bits(wt, fw);
                    }
                    i = i + 1;
                }
                proof {
                    assert(accum_items(
                        tbl_s,
                        self.quals_at(),
                        bits,
                        lo as int,
                        hi as int,
                        iw@,
                        wt,
                        731,
                    ) == (iw@, wt));
                }
            }
            k = k + 1;
        }
        proof {
            assert((iw@, wt) == st_final);
        }

        // The draw.
        let nf = mul_bits(cvt_bits(drawn), MIX_SCALE_BITS);
        let mut target = mul_bits(nf, wt);
        proof {
            assert(spec_select(iw@, target, 0) == spec_craft(
                self.pools_at(),
                self.quals_at(),
                pickups@,
            ));
        }
        let mut i: usize = 0;
        while i < 731
            invariant
                i <= 731,
                iw@.len() == 731,
                forall|t: int| 0 <= t < 731 ==> (#[trigger] iw@[t]) < 0x8000_0000,
                target < 0x8000_0000,
                spec_select(iw@, target, i as int) == spec_craft(
                    self.pools_at(),
                    self.quals_at(),
                    pickups@,
                ),
            decreases 731 - i,
        {
            let t2 = sub_bits(target, iw[i]);
            if is_neg(t2) {
                proof {
                    assert(spec_select(iw@, target, i as int) == i as int);
                }
                return InternalItemId::from_index(i);
            }
            proof {
                crate::ieee754::lemma_sub_keeps_domain(target, iw@[i as int]);
            }
            target = t2;
            i = i + 1;
        }
        InternalItemId::from_index(25)
    }
}

/// Eight slots of weight at least one each.
proof fn lemma_weight_sum_low(s: Seq<Pickup>)
    requires
        s.len() <= 8,
    ensures
        weight_sum(s) >= s.len(),
    decreases s.len(),
{
    if s.len() > 0 {
        lemma_weight_sum_low(s.drop_last());
    }
}

/// Crafting reads only the canonical bag: sorted recipes with equal
/// contents craft the same item.
pub proof fn lemma_craft_permutation(
    pools: Seq<Seq<u32>>,
    quals: Seq<u32>,
    x: Seq<Pickup>,
    y: Seq<Pickup>,
)
    requires
        crate::recipe::sorted_pickups(x),
        crate::recipe::sorted_pickups(y),
        x.to_multiset() == y.to_multiset(),
    ensures
        spec_craft(pools, quals, x) == spec_craft(pools, quals, y),
{
    crate::recipe::lemma_canonical_unique(x, y);
}

} // verus!
