//! Startup validation: exactly the well-formed catalogs are accepted.

use bag_crafting::catalog::{BasicCrafter, InternalItemId, ItemPool};
use bag_crafting::pickup::Pickup;
use bag_crafting::errors::CraftError;

fn b(x: f32) -> u32 {
    x.to_bits()
}

fn minimal_pools() -> Vec<(u32, Vec<(u16, u32)>)> {
    vec![
        (0, vec![(10, b(1.0))]),
        (1, vec![]),
        (2, vec![]),
        (3, vec![]),
        (4, vec![]),
        (5, vec![]),
        (8, vec![]),
        (9, vec![]),
        (12, vec![]),
        (26, vec![]),
    ]
}

#[test]
fn minimal_catalog_is_accepted() {
    let c = BasicCrafter::new(minimal_pools(), vec![(10, 2)]);
    assert!(c.is_ok());
}

#[test]
fn missing_crafting_pool_is_rejected() {
    let mut pools = minimal_pools();
    pools.retain(|(id, _)| *id != 26);
    assert_eq!(
        BasicCrafter::new(pools, vec![]).err(),
        Some(CraftError::StartupDataError)
    );
}

#[test]
fn bad_weights_are_rejected() {
    for bad in [0u32, f32::INFINITY.to_bits(), f32::NAN.to_bits(), (-1.0f32).to_bits()] {
        let mut pools = minimal_pools();
        pools[0].1 = vec![(10, bad)];
        assert_eq!(
            BasicCrafter::new(pools, vec![]).err(),
            Some(CraftError::StartupDataError),
            "weight {:#x} accepted",
            bad
        );
    }
}

#[test]
fn out_of_range_ids_are_rejected() {
    let mut pools = minimal_pools();
    pools[0].1 = vec![(731, b(1.0))];
    assert_eq!(
        BasicCrafter::new(pools, vec![]).err(),
        Some(CraftError::StartupDataError)
    );
    let mut pools = minimal_pools();
    pools.push((31, vec![]));
    assert_eq!(
        BasicCrafter::new(pools, vec![]).err(),
        Some(CraftError::StartupDataError)
    );
    assert_eq!(
        BasicCrafter::new(minimal_pools(), vec![(731, 0)]).err(),
        Some(CraftError::StartupDataError)
    );
}

#[test]
fn out_of_range_quality_is_rejected() {
    assert_eq!(
        BasicCrafter::new(minimal_pools(), vec![(10, 5)]).err(),
        Some(CraftError::StartupDataError)
    );
}

#[test]
fn duplicate_entries_are_rejected() {
    let mut pools = minimal_pools();
    pools.push((0, vec![]));
    assert_eq!(
        BasicCrafter::new(pools, vec![]).err(),
        Some(CraftError::StartupDataError)
    );
    let mut pools = minimal_pools();
    pools[0].1 = vec![(10, b(1.0)), (10, b(2.0))];
    assert_eq!(
        BasicCrafter::new(pools, vec![]).err(),
        Some(CraftError::StartupDataError)
    );
    assert_eq!(
        BasicCrafter::new(minimal_pools(), vec![(10, 1), (10, 2)]).err(),
        Some(CraftError::StartupDataError)
    );
}

#[test]
fn item_ids_validate_their_range() {
    assert_eq!(InternalItemId::new(0).unwrap().value(), 0);
    assert_eq!(InternalItemId::new(730).unwrap().value(), 730);
    assert_eq!(InternalItemId::new(731).err(), Some(CraftError::InvalidArgument));
    assert_eq!(InternalItemId::new(u16::MAX).err(), Some(CraftError::InvalidArgument));
}

#[test]
fn pool_names_round_trip_their_ordinals() {
    let mut seen = std::collections::HashSet::new();
    for i in 0..31 {
        let p = ItemPool::from_ordinal(i);
        assert_eq!(p.ordinal(), i);
        assert!(seen.insert(p.name()), "duplicate pool name {}", p.name());
    }
    assert_eq!(ItemPool::Treasure.name(), "treasure");
    assert_eq!(ItemPool::Planetarium.name(), "planetarium");
    assert_eq!(ItemPool::GoldenChest.name(), "goldenChest");
}

#[test]
fn pickup_tables_are_in_range() {
    for i in 0..25 {
        let p = Pickup::from_ordinal(i);
        assert_eq!(p.ordinal(), i);
        let w = p.weight();
        assert!((1..=10).contains(&w));
        let (a, b, c) = p.shifts();
        assert!(a < 32 && b < 32 && c < 32);
    }
    assert_eq!(Pickup::RedHeart.weight(), 1);
    assert_eq!(Pickup::GigaBomb.weight(), 10);
    assert_eq!(Pickup::SoulHeart.shifts(), (0x1, 0x9, 0x1D));
    assert_eq!(Pickup::CrackedKey.shifts(), (0x3, 0xD, 0x7));
}
