//! The incremental index against brute-force recomputation, and its
//! restore/reset behaviour.

use std::collections::{HashMap, HashSet};

use bag_crafting::pickup::Pickup;
use bag_crafting::pickup::Pickup::{Key, LilBattery, LuckyPenny, Nickel, Penny, Pill, RedHeart, Rune, SoulHeart};
use bag_crafting::recipe::InternalPickups;
use bag_crafting::catalog::{BasicCrafter, InternalItemId};
use bag_crafting::index::DeltaCrafter;

fn b(x: f32) -> u32 {
    x.to_bits()
}

fn catalog_input() -> (Vec<(u32, Vec<(u16, u32)>)>, Vec<(u16, u32)>) {
    let pools: Vec<(u32, Vec<(u16, u32)>)> = vec![
        (0, vec![(10, b(1.0)), (20, b(2.0)), (30, b(0.5)), (40, b(1.0)), (50, b(3.0))]),
        (1, vec![(20, b(1.0)), (60, b(2.5)), (70, b(1.0))]),
        (2, vec![(30, b(2.0)), (80, b(1.0)), (90, b(0.75))]),
        (3, vec![(100, b(1.0)), (110, b(2.0))]),
        (4, vec![(120, b(1.0)), (130, b(1.0))]),
        (5, vec![(140, b(1.0)), (150, b(2.0))]),
        (8, vec![(160, b(1.0))]),
        (9, vec![(170, b(1.0))]),
        (12, vec![(180, b(1.0))]),
        (26, vec![(190, b(1.0)), (200, b(1.0))]),
    ];
    let qualities: Vec<(u16, u32)> = vec![
        (10, 0),
        (20, 1),
        (30, 2),
        (40, 3),
        (50, 4),
        (60, 1),
        (70, 2),
        (80, 0),
        (90, 1),
        (100, 2),
        (110, 3),
        (120, 4),
        (130, 1),
        (140, 2),
        (150, 3),
        (160, 0),
        (170, 1),
        (180, 2),
        (190, 1),
        (200, 3),
    ];
    (pools, qualities)
}

fn new_index() -> DeltaCrafter {
    let (pools, qualities) = catalog_input();
    DeltaCrafter::new(pools, qualities).unwrap()
}

fn new_crafter() -> BasicCrafter {
    let (pools, qualities) = catalog_input();
    BasicCrafter::new(pools, qualities).unwrap()
}

/// All count vectors bounded by `held` with total `want`, brute force.
fn enumerate_counts(held: &[u8], want: u8) -> Vec<Vec<u8>> {
    let mut out = Vec::new();
    let mut acc = vec![0u8; 25];
    enumerate_counts_from(held, 0, want, &mut acc, &mut out);
    out
}

fn enumerate_counts_from(held: &[u8], i: usize, rem: u8, acc: &mut Vec<u8>, out: &mut Vec<Vec<u8>>) {
    if i == 25 {
        if rem == 0 {
            out.push(acc.clone());
        }
        return;
    }
    let top = held[i].min(rem);
    for c in 0..=top {
        acc[i] = c;
        enumerate_counts_from(held, i + 1, rem - c, acc, out);
    }
    acc[i] = 0;
}

fn recipe_from_counts(counts: &[u8]) -> InternalPickups {
    let mut slots: Vec<Pickup> = Vec::new();
    for i in 0..25 {
        for _ in 0..counts[i] {
            slots.push(Pickup::from_ordinal(i));
        }
    }
    let mut arr = [Pickup::RedHeart; 8];
    for (j, p) in slots.iter().enumerate() {
        arr[j] = *p;
    }
    InternalPickups::new(arr)
}

/// The brute-force map: item id to the set of fitting recipes crafting it.
fn brute_force(crafter: &BasicCrafter, held: &[u8]) -> HashMap<u16, HashSet<Vec<Pickup>>> {
    let mut map: HashMap<u16, HashSet<Vec<Pickup>>> = HashMap::new();
    for counts in enumerate_counts(held, 8) {
        let r = recipe_from_counts(&counts);
        let id = crafter.craft(&r).value();
        map.entry(id).or_insert_with(HashSet::new).insert(r.slots().clone());
    }
    map
}

/// The whole index as a map, through the public getters.
fn index_state(index: &DeltaCrafter) -> HashMap<u16, HashSet<Vec<Pickup>>> {
    let mut map: HashMap<u16, HashSet<Vec<Pickup>>> = HashMap::new();
    for id in index.items() {
        let set: HashSet<Vec<Pickup>> = index
            .get_recipes(id)
            .iter()
            .map(|r| r.slots().clone())
            .collect();
        assert!(!set.is_empty());
        map.insert(id.value(), set);
    }
    map
}

fn check_matches_brute_force(index: &DeltaCrafter, crafter: &BasicCrafter) {
    let held = index.pickups();
    assert_eq!(index_state(index), brute_force(crafter, &held));
}

#[test]
fn index_matches_brute_force_through_updates() {
    let mut index = new_index();
    let crafter = new_crafter();
    let script = [
        RedHeart, RedHeart, SoulHeart, Penny, Penny, Nickel, LuckyPenny, Key, LilBattery, Penny,
    ];
    for p in script {
        index.add_pickup(p);
        check_matches_brute_force(&index, &crafter);
    }
    for p in [Penny, RedHeart, LuckyPenny, Key] {
        index.remove_pickup(p);
        check_matches_brute_force(&index, &crafter);
    }
}

#[test]
fn first_recipe_appears_at_eight_pickups() {
    let mut index = new_index();
    for _ in 0..7 {
        index.add_pickup(RedHeart);
        assert!(index.items().is_empty());
    }
    index.add_pickup(Pill);
    let items = index.items();
    assert_eq!(items.len(), 1);
    let id = items[0];
    assert_eq!(id.value(), 30);
    let recipes = index.get_recipes(id);
    assert_eq!(recipes.len(), 1);
    let mut want = [RedHeart; 8];
    want[7] = Pill;
    assert_eq!(recipes[0], InternalPickups::new(want));

    // an eighth red heart brings the all-red-heart recipe for another item
    // but leaves this set alone
    index.add_pickup(RedHeart);
    let recipes = index.get_recipes(id);
    assert_eq!(recipes.len(), 1);
    assert_eq!(recipes[0], InternalPickups::new(want));
    let rh8 = index.get_recipes(InternalItemId::new(80).unwrap());
    assert_eq!(rh8.len(), 1);
    assert_eq!(rh8[0], InternalPickups::new([RedHeart; 8]));

    // removing back down to seven red hearts drops only the all-red-heart set
    index.remove_pickup(RedHeart);
    let recipes = index.get_recipes(id);
    assert_eq!(recipes.len(), 1);
    assert!(index.get_recipes(InternalItemId::new(80).unwrap()).is_empty());
}

#[test]
fn ninth_unit_changes_nothing() {
    let mut index = new_index();
    for _ in 0..8 {
        index.add_pickup(SoulHeart);
    }
    let before = index_state(&index);
    index.add_pickup(SoulHeart);
    assert_eq!(index_state(&index), before);
    index.remove_pickup(SoulHeart);
    assert_eq!(index_state(&index), before);
}

#[test]
fn remove_after_add_restores_the_state() {
    let mut index = new_index();
    for p in [RedHeart, RedHeart, SoulHeart, Penny, Penny, Nickel, LuckyPenny, Key] {
        index.add_pickup(p);
    }
    let held_before = index.pickups();
    let state_before = index_state(&index);
    for p in [Pill, SoulHeart, RedHeart] {
        index.add_pickup(p);
        index.remove_pickup(p);
        assert_eq!(index.pickups(), held_before);
        assert_eq!(index_state(&index), state_before);
    }
}

#[test]
fn removing_from_zero_is_a_no_op() {
    let mut index = new_index();
    index.remove_pickup(Rune);
    assert_eq!(index.pickups(), vec![0u8; 25]);
    assert!(index.items().is_empty());
}

#[test]
fn reset_matches_a_fresh_index() {
    let mut index = new_index();
    for p in [RedHeart, RedHeart, SoulHeart, Penny, Penny, Nickel, LuckyPenny, Key, Pill] {
        index.add_pickup(p);
    }
    assert!(!index.items().is_empty());
    index.reset();
    let fresh = new_index();
    assert_eq!(index.pickups(), fresh.pickups());
    assert_eq!(index_state(&index), index_state(&fresh));
    assert!(index.items().is_empty());

    // and the reset index keeps working as an empty one
    for p in [RedHeart, RedHeart, SoulHeart, Penny, Penny, Nickel, LuckyPenny, Key] {
        index.add_pickup(p);
    }
    let crafter = new_crafter();
    check_matches_brute_force(&index, &crafter);
}

#[test]
fn memoized_crafting_agrees_with_the_pure_rule() {
    let mut index = new_index();
    let crafter = new_crafter();
    let r = InternalPickups::new([RedHeart, RedHeart, SoulHeart, Penny, Penny, Nickel, LuckyPenny,
        Key]);
    let first = index.craft(&r);
    let second = index.craft(&r);
    assert_eq!(first, second);
    assert_eq!(first, crafter.craft(&r));
}

#[test]
fn longer_pseudorandom_script_matches_brute_force() {
    let mut index = new_index();
    let crafter = new_crafter();
    let mut x: u64 = 0x5851_f42d_4c95_7f2d;
    let mut steps: u32 = 0;
    while steps < 40 {
        x = x.wrapping_mul(6364136223846793005).wrapping_add(1442695040888963407);
        let p = Pickup::from_ordinal(((x >> 33) % 25) as usize);
        if (x >> 13) % 3 == 0 {
            index.remove_pickup(p);
        } else {
            index.add_pickup(p);
        }
        // keep the brute force small
        let total: u32 = index.pickups().iter().map(|&c| c as u32).sum();
        if total > 11 {
            index.remove_pickup(p);
        }
        check_matches_brute_force(&index, &crafter);
        steps += 1;
    }
}
