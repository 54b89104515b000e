//! The item catalog: per-pool weighted item tables and per-item qualities,
//! loaded once at startup and validated there, read-only afterwards.

use vstd::prelude::*;
use crate::errors::CraftError;

verus! {

/// Number of item pools.
pub const POOL_KINDS: usize = 31;

/// Number of item ids, `0..=730`.
pub const ITEM_KINDS: usize = 731;

/// Identifier of a craftable item, an integer in `0..=730`.
#[derive(Debug, Clone, Copy, PartialEq, Eq, PartialOrd, Ord, Hash, Structural)]
pub struct InternalItemId {
    id: u16,
}

impl View for InternalItemId {
    type V = int;

    closed spec fn view(&self) -> int {
        self.id as int
    }
}

impl InternalItemId {
    /// Validate a raw id; out-of-range ids are rejected, not clamped.
    pub fn new(id: u16) -> (r: Result<InternalItemId, CraftError>)
        ensures
            id <= 730 ==> (r matches Ok(v) && v@ == id as int),
            id > 730 ==> (r matches Err(e) && e == CraftError::InvalidArgument),
    {
        if id <= 730 {
            Ok(InternalItemId { id })
        } else {
            Err(CraftError::InvalidArgument)
        }
    }

    /// The id at a table index, which is always in range.
    pub fn from_index(i: usize) -> (r: InternalItemId)
        requires
            i < ITEM_KINDS,
        ensures
            r@ == i as int,
    {
        InternalItemId { id: i as u16 }
    }

    /// The raw id.
    pub fn value(&self) -> (r: u16)
        ensures
            r as int == self@,
    {
        self.id
    }
}

/// One of the 31 item pools. Only ten of them take part in crafting; the
/// rest are carried so a full catalog can be held as loaded.
#[derive(Debug, Clone, Copy, PartialEq, Eq, Hash, Structural)]
pub enum ItemPool {
    Treasure,
    Shop,
    Boss,
    Devil,
    Angel,
    Secret,
    Library,
    ShellGame,
    GoldenChest,
    RedChest,
    Beggar,
    DemonBeggar,
    Curse,
    KeyMaster,
    BatteryBum,
    MomsChest,
    GreedTreasure,
    GreedBoss,
    GreedShop,
    GreedCurse,
    GreedDevil,
    GreedAngel,
    GreedSecret,
    CraneGame,
    Unused24,
    BombBum,
    Planetarium,
    OldChest,
    BabyShop,
    WoodenChest,
    RottenBeggar,
}

impl ItemPool {
    /// Position of this pool in the catalog tables.
    pub open spec fn ord(self) -> int {
        match self {
            ItemPool::Treasure => 0,
            ItemPool::Shop => 1,
            ItemPool::Boss => 2,
            ItemPool::Devil => 3,
            ItemPool::Angel => 4,
            ItemPool::Secret => 5,
            ItemPool::Library => 6,
            ItemPool::ShellGame => 7,
            ItemPool::GoldenChest => 8,
            ItemPool::RedChest => 9,
            ItemPool::Beggar => 10,
            ItemPool::DemonBeggar => 11,
            ItemPool::Curse => 12,
            ItemPool::KeyMaster => 13,
            ItemPool::BatteryBum => 14,
            ItemPool::MomsChest => 15,
            ItemPool::GreedTreasure => 16,
            ItemPool::GreedBoss => 17,
            ItemPool::GreedShop => 18,
            ItemPool::GreedCurse => 19,
            ItemPool::GreedDevil => 20,
            ItemPool::GreedAngel => 21,
            ItemPool::GreedSecret => 22,
            ItemPool::CraneGame => 23,
            ItemPool::Unused24 => 24,
            ItemPool::BombBum => 25,
            ItemPool::Planetarium => 26,
            ItemPool::OldChest => 27,
            ItemPool::BabyShop => 28,
            ItemPool::WoodenChest => 29,
            ItemPool::RottenBeggar => 30,
        }
    }

    /// Position of this pool in the catalog tables.
    pub fn ordinal(self) -> (n: usize)
        ensures
            n as int == self.ord(),
            n < POOL_KINDS,
    {
        match self {
            ItemPool::Treasure => 0,
            ItemPool::Shop => 1,
            ItemPool::Boss => 2,
            ItemPool::Devil => 3,
            ItemPool::Angel => 4,
            ItemPool::Secret => 5,
            ItemPool::Library => 6,
            ItemPool::ShellGame => 7,
            ItemPool::GoldenChest => 8,
            ItemPool::RedChest => 9,
            ItemPool::Beggar => 10,
            ItemPool::DemonBeggar => 11,
            ItemPool::Curse => 12,
            ItemPool::KeyMaster => 13,
            ItemPool::BatteryBum => 14,
            ItemPool::MomsChest => 15,
            ItemPool::GreedTreasure => 16,
            ItemPool::GreedBoss => 17,
            ItemPool::GreedShop => 18,
            ItemPool::GreedCurse => 19,
            ItemPool::GreedDevil => 20,
            ItemPool::GreedAngel => 21,
            ItemPool::GreedSecret => 22,
            ItemPool::CraneGame => 23,
            ItemPool::Unused24 => 24,
            ItemPool::BombBum => 25,
            ItemPool::Planetarium => 26,
            ItemPool::OldChest => 27,
            ItemPool::BabyShop => 28,
            ItemPool::WoodenChest => 29,
            ItemPool::RottenBeggar => 30,
        }
    }

    /// The pool at a given table position.
    pub fn from_ordinal(n: usize) -> (p: ItemPool)
        requires
            n < POOL_KINDS,
        ensures
            p.ord() == n as int,
    {
        match n {
            0 => ItemPool::Treasure,
            1 => ItemPool::Shop,
            2 => ItemPool::Boss,
            3 => ItemPool::Devil,
            4 => ItemPool::Angel,
            5 => ItemPool::Secret,
            6 => ItemPool::Library,
            7 => ItemPool::ShellGame,
            8 => ItemPool::GoldenChest,
            9 => ItemPool::RedChest,
            10 => ItemPool::Beggar,
            11 => ItemPool::DemonBeggar,
            12 => ItemPool::Curse,
            13 => ItemPool::KeyMaster,
            14 => ItemPool::BatteryBum,
            15 => ItemPool::MomsChest,
            16 => ItemPool::GreedTreasure,
            17 => ItemPool::GreedBoss,
            18 => ItemPool::GreedShop,
            19 => ItemPool::GreedCurse,
            20 => ItemPool::GreedDevil,
            21 => ItemPool::GreedAngel,
            22 => ItemPool::GreedSecret,
            23 => ItemPool::CraneGame,
            24 => ItemPool::Unused24,
            25 => ItemPool::BombBum,
            26 => ItemPool::Planetarium,
            27 => ItemPool::OldChest,
            28 => ItemPool::BabyShop,
            29 => ItemPool::WoodenChest,
            _ => ItemPool::RottenBeggar,
        }
    }

    /// The name this pool carries in the catalog's data files.
    pub fn name(self) -> &'static str {
        match self {
            ItemPool::Treasure => "treasure",
            ItemPool::Shop => "shop",
            ItemPool::Boss => "boss",
            ItemPool::Devil => "devil",
            ItemPool::Angel => "angel",
            ItemPool::Secret => "secret",
            ItemPool::Library => "library",
            ItemPool::ShellGame => "shellGame",
            ItemPool::GoldenChest => "goldenChest",
            ItemPool::RedChest => "redChest",
            ItemPool::Beggar => "beggar",
            ItemPool::DemonBeggar => "demonBeggar",
            ItemPool::Curse => "curse",
            ItemPool::KeyMaster => "keyMaster",
            ItemPool::BatteryBum => "batteryBum",
            ItemPool::MomsChest => "momsChest",
            ItemPool::GreedTreasure => "greedTreasure",
            ItemPool::GreedBoss => "greedBoss",
            ItemPool::GreedShop => "greedShop",
            ItemPool::GreedCurse => "greedCurse",
            ItemPool::GreedDevil => "greedDevil",
            ItemPool::GreedAngel => "greedAngel",
            ItemPool::GreedSecret => "greedSecret",
            ItemPool::CraneGame => "craneGame",
            ItemPool::Unused24 => "unused24",
            ItemPool::BombBum => "bombBum",
            ItemPool::Planetarium => "planetarium",
            ItemPool::OldChest => "oldChest",
            ItemPool::BabyShop => "babyShop",
            ItemPool::WoodenChest => "woodenChest",
            ItemPool::RottenBeggar => "rottenBeggar",
        }
    }
}

/// A weight table cell: zero means the item is absent from the pool, any
/// other value is a positive finite binary32 pattern.
pub open spec fn weight_cell_ok(w: u32) -> bool {
    w == 0 || (0 < w < 0x7F80_0000)
}

/// One catalog input entry: an item id at or below 730 and a positive finite
/// binary32 weight pattern.
pub open spec fn entry_ok(e: (u16, u32)) -> bool {
    e.0 <= 730 && 0 < e.1 < 0x7F80_0000
}

/// A pool's input entries: all valid, no item id twice.
pub open spec fn pool_entries_ok(items: Seq<(u16, u32)>) -> bool {
    &&& forall|k: int| 0 <= k < items.len() ==> entry_ok(#[trigger] items[k])
    &&& forall|k1: int, k2: int|
        0 <= k1 < k2 < items.len() ==> (#[trigger] items[k1]).0 != (#[trigger] items[k2]).0
}

/// The whole pool input: pool ids in range and distinct, entries valid.
pub open spec fn pools_input_ok(ps: Seq<(u32, Vec<(u16, u32)>)>) -> bool {
    &&& forall|k: int| 0 <= k < ps.len() ==> (#[trigger] ps[k]).0 < 31
    &&& forall|k: int| 0 <= k < ps.len() ==> pool_entries_ok((#[trigger] ps[k]).1@)
    &&& forall|k1: int, k2: int|
        0 <= k1 < k2 < ps.len() ==> (#[trigger] ps[k1]).0 != (#[trigger] ps[k2]).0
}

/// Whether some input entry names the given pool.
pub open spec fn has_pool(ps: Seq<(u32, Vec<(u16, u32)>)>, p: int) -> bool {
    exists|k: int| 0 <= k < ps.len() && (#[trigger] ps[k]).0 == p
}

/// The ten pools the crafting rule reads must all be supplied.
pub open spec fn required_pools_present(ps: Seq<(u32, Vec<(u16, u32)>)>) -> bool {
    &&& has_pool(ps, 0)
    &&& has_pool(ps, 1)
    &&& has_pool(ps, 2)
    &&& has_pool(ps, 3)
    &&& has_pool(ps, 4)
    &&& has_pool(ps, 5)
    &&& has_pool(ps, 8)
    &&& has_pool(ps, 9)
    &&& has_pool(ps, 12)
    &&& has_pool(ps, 26)
}

/// The quality input: ids in range and distinct, qualities at most 4.
pub open spec fn quals_input_ok(qs: Seq<(u16, u32)>) -> bool {
    &&& forall|k: int| 0 <= k < qs.len() ==> (#[trigger] qs[k]).0 <= 730 && qs[k].1 <= 4
    &&& forall|k1: int, k2: int|
        0 <= k1 < k2 < qs.len() ==> (#[trigger] qs[k1]).0 != (#[trigger] qs[k2]).0
}

/// The weight the last matching entry gives an item, zero when absent.
pub open spec fn find_weight_in(items: Seq<(u16, u32)>, id: int) -> u32
    decreases items.len(),
{
    if items.len() == 0 {
        0u32
    } else if items.last().0 == id {
        items.last().1
    } else {
        find_weight_in(items.drop_last(), id)
    }
}

/// The entries of the last input pool with the given id, empty when absent.
pub open spec fn find_pool_items(ps: Seq<(u32, Vec<(u16, u32)>)>, p: int) -> Seq<(u16, u32)>
    decreases ps.len(),
{
    if ps.len() == 0 {
        Seq::empty()
    } else if ps.last().0 == p {
        ps.last().1@
    } else {
        find_pool_items(ps.drop_last(), p)
    }
}

/// The catalog weight of item `i` in pool `p` as given by the input.
pub open spec fn spec_pool_weight(ps: Seq<(u32, Vec<(u16, u32)>)>, p: int, i: int) -> u32 {
    find_weight_in(find_pool_items(ps, p), i)
}

/// The quality the last matching entry gives an item, zero when absent.
pub open spec fn find_quality_in(qs: Seq<(u16, u32)>, id: int) -> u32
    decreases qs.len(),
{
    if qs.len() == 0 {
        0u32
    } else if qs.last().0 == id {
        qs.last().1
    } else {
        find_quality_in(qs.drop_last(), id)
    }
}

/// The catalog: a dense weight table per pool and a dense quality table,
/// both indexed by ordinal. This is the pure crafting rule's entire input
/// besides the recipe itself.
#[derive(Debug, Clone)]
pub struct BasicCrafter {
    pub(crate) pool_item_weights: Vec<Vec<u32>>,
    pub(crate) item_qualities: Vec<u32>,
}

impl BasicCrafter {
    /// Dense weight tables, one per pool, indexed by item id.
    pub closed spec fn pools_at(self) -> Seq<Seq<u32>> {
        self.pool_item_weights@.map_values(|v: Vec<u32>| v@)
    }

    /// Dense quality table indexed by item id.
    pub closed spec fn quals_at(self) -> Seq<u32> {
        self.item_qualities@
    }

    /// A well-formed catalog: full dense tables, every weight cell zero or a
    /// positive finite pattern, every quality at most 4.
    pub open spec fn wf(self) -> bool {
        &&& self.pools_at().len() == 31
        &&& forall|p: int| 0 <= p < 31 ==> (#[trigger] self.pools_at()[p]).len() == 731
        &&& forall|p: int, i: int|
            0 <= p < 31 && 0 <= i < 731 ==> weight_cell_ok(#[trigger] self.pools_at()[p][i])
        &&& self.quals_at().len() == 731
        &&& forall|i: int| 0 <= i < 731 ==> (#[trigger] self.quals_at()[i]) <= 4
    }

    /// Build and validate a catalog from plain pool and quality entries.
    ///
    /// Succeeds exactly on well-formed input with the ten crafting pools
    /// present; the tables of the result hold precisely the supplied
    /// weights and qualities, with zero for anything left unsupplied.
    pub fn new(pools: Vec<(u32, Vec<(u16, u32)>)>, qualities: Vec<(u16, u32)>) -> (r: Result<
        BasicCrafter,
        CraftError,
    >)
        ensures
            r matches Ok(c) ==> {
                &&& pools_input_ok(pools@)
                &&& required_pools_present(pools@)
                &&& quals_input_ok(qualities@)
                &&& c.wf()
                &&& forall|p: int, i: int|
                    0 <= p < 31 && 0 <= i < 731 ==> #[trigger] c.pools_at()[p][i]
                        == spec_pool_weight(pools@, p, i)
                &&& forall|i: int|
                    0 <= i < 731 ==> #[trigger] c.quals_at()[i] == find_quality_in(qualities@, i)
            },
            r matches Err(e) ==> {
                &&& e == CraftError::StartupDataError
                &&& !(pools_input_ok(pools@) && required_pools_present(pools@) && quals_input_ok(
                    qualities@,
                ))
            },
    {
        if !check_pools(&pools) || !check_required(&pools) || !check_quals(&qualities) {
            return Err(CraftError::StartupDataError);
        }
        let mut tables: Vec<Vec<u32>> = Vec::new();
        let mut p: usize = 0;
        while p < 31
            invariant
                p <= 31,
                tables@.len() == p as int,
                forall|q: int| 0 <= q < p ==> (#[trigger] tables@[q])@.len() == 731,
                forall|q: int, i: int|
                    0 <= q < p && 0 <= i < 731 ==> #[trigger] tables@[q]@[i] == spec_pool_weight(
                        pools@,
                        q,
                        i,
                    ),
                pools_input_ok(pools@),
            decreases 31 - p,
        {
            let mut row: Vec<u32> = Vec::new();
            let mut i: usize = 0;
            while i < 731
                invariant
                    i <= 731,
                    row@.len() == i as int,
                    forall|t: int|
                        0 <= t < i ==> #[trigger] row@[t] == spec_pool_weight(
                            pools@,
                            p as int,
                            t,
                        ),
                    p < 31,
                    pools_input_ok(pools@),
                decreases 731 - i,
            {
                let w = weight_of(&pools, p as u32, i as u16);
                row.push(w);
                i = i + 1;
            }
            tables.push(row);
            p = p + 1;
        }
        let mut quals: Vec<u32> = Vec::new();
        let mut i: usize = 0;
        while i < 731
            invariant
                i <= 731,
                quals@.len() == i as int,
                forall|t: int| 0 <= t < i ==> #[trigger] quals@[t] == find_quality_in(qualities@, t),
                quals_input_ok(qualities@),
            decreases 731 - i,
        {
            let q = quality_of(&qualities, i as u16);
            quals.push(q);
            i = i + 1;
        }
        let c = BasicCrafter { pool_item_weights: tables, item_qualities: quals };
        proof {
            assert forall|pp: int, ii: int| 0 <= pp < 31 && 0 <= ii < 731 implies weight_cell_ok(
                #[trigger] c.pools_at()[pp][ii],
            ) by {
                assert(c.pools_at()[pp][ii] == spec_pool_weight(pools@, pp, ii));
                lemma_spec_pool_weight_ok(pools@, pp, ii);
            }
            assert forall|ii: int| 0 <= ii < 731 implies (#[trigger] c.quals_at()[ii]) <= 4 by {
                lemma_find_quality_ok(qualities@, ii);
            }
        }
        Ok(c)
    }
}

/// How the dense tables relate to the stored vectors, for the crafting
/// module.
pub(crate) proof fn lemma_catalog_views(c: &BasicCrafter)
    ensures
        c.pools_at().len() == c.pool_item_weights@.len(),
        forall|p: int|
            0 <= p < c.pools_at().len() ==> #[trigger] c.pools_at()[p] == c.pool_item_weights@[p]@,
        c.quals_at() == c.item_qualities@,
{
}

/// Valid pool input only yields valid weight cells.
proof fn lemma_spec_pool_weight_ok(ps: Seq<(u32, Vec<(u16, u32)>)>, p: int, i: int)
    requires
        pools_input_ok(ps),
    ensures
        weight_cell_ok(spec_pool_weight(ps, p, i)),
{
    lemma_find_pool_items_ok(ps, p);
    lemma_find_weight_ok(find_pool_items(ps, p), i);
}

proof fn lemma_find_pool_items_ok(ps: Seq<(u32, Vec<(u16, u32)>)>, p: int)
    requires
        forall|k: int| 0 <= k < ps.len() ==> pool_entries_ok((#[trigger] ps[k]).1@),
    ensures
        pool_entries_ok(find_pool_items(ps, p)),
    decreases ps.len(),
{
    if ps.len() == 0 {
    } else if ps.last().0 == p {
        assert(ps[ps.len() - 1] == ps.last());
    } else {
        lemma_find_pool_items_ok(ps.drop_last(), p);
    }
}

proof fn lemma_find_weight_ok(items: Seq<(u16, u32)>, i: int)
    requires
        pool_entries_ok(items),
    ensures
        weight_cell_ok(find_weight_in(items, i)),
    decreases items.len(),
{
    if items.len() == 0 {
    } else if items.last().0 == i {
        assert(items[items.len() - 1] == items.last());
    } else {
        lemma_find_weight_ok(items.drop_last(), i);
    }
}

proof fn lemma_find_quality_ok(qs: Seq<(u16, u32)>, i: int)
    requires
        quals_input_ok(qs),
    ensures
        find_quality_in(qs, i) <= 4,
    decreases qs.len(),
{
    if qs.len() == 0 {
    } else if qs.last().0 == i {
        assert(qs[qs.len() - 1] == qs.last());
    } else {
        assert(qs.drop_last().len() == qs.len() - 1);
        assert(quals_input_ok(qs.drop_last())) by {
            assert(forall|k: int|
                0 <= k < qs.drop_last().len() ==> #[trigger] qs.drop_last()[k] == qs[k]);
        }
        lemma_find_quality_ok(qs.drop_last(), i);
    }
}

/// Validate every pool entry and the distinctness of pool ids.
fn check_pools(pools: &Vec<(u32, Vec<(u16, u32)>)>) -> (r: bool)
    ensures
        r == pools_input_ok(pools@),
{
    let n = pools.len();
    let mut k: usize = 0;
    while k < n
        invariant
            k <= n,
            n == pools@.len(),
            forall|t: int| 0 <= t < k ==> (#[trigger] pools@[t]).0 < 31,
            forall|t: int| 0 <= t < k ==> pool_entries_ok((#[trigger] pools@[t]).1@),
            forall|t1: int, t2: int|
                0 <= t1 < t2 < k ==> (#[trigger] pools@[t1]).0 != (#[trigger] pools@[t2]).0,
        decreases n - k,
    {
        if pools[k].0 >= 31 {
            return false;
        }
        if !check_entries(&pools[k].1) {
            return false;
        }
        let mut t: usize = 0;
        while t < k
            invariant
                t <= k < n,
                n == pools@.len(),
                forall|u: int| 0 <= u < t ==> (#[trigger] pools@[u]).0 != pools@[k as int].0,
            decreases k - t,
        {
            if pools[t].0 == pools[k].0 {
                return false;
            }
            t = t + 1;
        }
        k = k + 1;
    }
    true
}

/// Validate one pool's entries.
fn check_entries(items: &Vec<(u16, u32)>) -> (r: bool)
    ensures
        r == pool_entries_ok(items@),
{
    let n = items.len();
    let mut k: usize = 0;
    while k < n
        invariant
            k <= n,
            n == items@.len(),
            forall|t: int| 0 <= t < k ==> entry_ok(#[trigger] items@[t]),
            forall|t1: int, t2: int|
                0 <= t1 < t2 < k ==> (#[trigger] items@[t1]).0 != (#[trigger] items@[t2]).0,
        decreases n - k,
    {
        let (id, w) = items[k];
        if id > 730 || w == 0 || w >= 0x7F80_0000 {
            return false;
        }
        let mut t: usize = 0;
        while t < k
            invariant
                t <= k < n,
                n == items@.len(),
                forall|u: int| 0 <= u < t ==> (#[trigger] items@[u]).0 != items@[k as int].0,
            decreases k - t,
        {
            if items[t].0 == items[k].0 {
                return false;
            }
            t = t + 1;
        }
        k = k + 1;
    }
    true
}

/// Whether a pool id occurs in the input.
fn find_pool_present(pools: &Vec<(u32, Vec<(u16, u32)>)>, p: u32) -> (r: bool)
    ensures
        r == has_pool(pools@, p as int),
{
    let n = pools.len();
    let mut k: usize = 0;
    while k < n
        invariant
            k <= n,
            n == pools@.len(),
            forall|t: int| 0 <= t < k ==> (#[trigger] pools@[t]).0 != p,
        decreases n - k,
    {
        if pools[k].0 == p {
            return true;
        }
        k = k + 1;
    }
    false
}

/// All ten crafting pools present.
fn check_required(pools: &Vec<(u32, Vec<(u16, u32)>)>) -> (r: bool)
    ensures
        r == required_pools_present(pools@),
{
    find_pool_present(pools, 0) && find_pool_present(pools, 1) && find_pool_present(pools, 2)
        && find_pool_present(pools, 3) && find_pool_present(pools, 4) && find_pool_present(pools, 5)
        && find_pool_present(pools, 8) && find_pool_present(pools, 9) && find_pool_present(
        pools,
        12,
    ) && find_pool_present(pools, 26)
}

/// Validate the quality entries.
fn check_quals(qs: &Vec<(u16, u32)>) -> (r: bool)
    ensures
        r == quals_input_ok(qs@),
{
    let n = qs.len();
    let mut k: usize = 0;
    while k < n
        invariant
            k <= n,
            n == qs@.len(),
            forall|t: int| 0 <= t < k ==> (#[trigger] qs@[t]).0 <= 730 && qs@[t].1 <= 4,
            forall|t1: int, t2: int|
                0 <= t1 < t2 < k ==> (#[trigger] qs@[t1]).0 != (#[trigger] qs@[t2]).0,
        decreases n - k,
    {
        let (id, q) = qs[k];
        if id > 730 || q > 4 {
            return false;
        }
        let mut t: usize = 0;
        while t < k
            invariant
                t <= k < n,
                n == qs@.len(),
                forall|u: int| 0 <= u < t ==> (#[trigger] qs@[u]).0 != qs@[k as int].0,
            decreases k - t,
        {
            if qs[t].0 == qs[k].0 {
                return false;
            }
            t = t + 1;
        }
        k = k + 1;
    }
    true
}

/// The weight the input gives item `i` in pool `p` (last entry wins).
fn weight_of(pools: &Vec<(u32, Vec<(u16, u32)>)>, p: u32, i: u16) -> (w: u32)
    ensures
        w == spec_pool_weight(pools@, p as int, i as int),
{
    let mut k = pools.len();
    proof {
        assert(pools@.subrange(0, pools@.len() as int) =~= pools@);
    }
    while k > 0
        invariant
            k <= pools@.len(),
            find_pool_items(pools@, p as int) == find_pool_items(
                pools@.subrange(0, k as int),
                p as int,
            ),
        decreases k,
    {
        proof {
            let pre = pools@.subrange(0, k as int);
            assert(pre.drop_last() =~= pools@.subrange(0, k as int - 1));
            assert(pre.last() == pools@[k as int - 1]);
        }
        if pools[k - 1].0 == p {
            return weight_in(&pools[k - 1].1, i);
        }
        k = k - 1;
    }
    proof {
        assert(pools@.subrange(0, 0) =~= Seq::<(u32, Vec<(u16, u32)>)>::empty());
    }
    0
}

/// The weight the entries give item `i` (last entry wins), zero when absent.
fn weight_in(items: &Vec<(u16, u32)>, i: u16) -> (w: u32)
    ensures
        w == find_weight_in(items@, i as int),
{
    let mut k = items.len();
    proof {
        assert(items@.subrange(0, items@.len() as int) =~= items@);
    }
    while k > 0
        invariant
            k <= items@.len(),
            find_weight_in(items@, i as int) == find_weight_in(
                items@.subrange(0, k as int),
                i as int,
            ),
        decreases k,
    {
        proof {
            let pre = items@.subrange(0, k as int);
            assert(pre.drop_last() =~= items@.subrange(0, k as int - 1));
            assert(pre.last() == items@[k as int - 1]);
        }
        if items[k - 1].0 == i {
            return items[k - 1].1;
        }
        k = k - 1;
    }
    proof {
        assert(items@.subrange(0, 0) =~= Seq::<(u16, u32)>::empty());
    }
    0
}

/// The quality the input gives item `i` (last entry wins), zero when absent.
fn quality_of(qs: &Vec<(u16, u32)>, i: u16) -> (q: u32)
    ensures
        q == find_quality_in(qs@, i as int),
{
    let mut k = qs.len();
    proof {
        assert(qs@.subrange(0, qs@.len() as int) =~= qs@);
    }
    while k > 0
        invariant
            k <= qs@.len(),
            find_quality_in(qs@, i as int) == find_quality_in(qs@.subrange(0, k as int), i as int),
        decreases k,
    {
        proof {
            let pre = qs@.subrange(0, k as int);
            assert(pre.drop_last() =~= qs@.subrange(0, k as int - 1));
            assert(pre.last() == qs@[k as int - 1]);
        }
        if qs[k - 1].0 == i {
            return qs[k - 1].1;
        }
        k = k - 1;
    }
    proof {
        assert(qs@.subrange(0, 0) =~= Seq::<(u16, u32)>::empty());
    }
    0
}

} // verus!
