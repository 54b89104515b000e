//! The sub-bag walk yields every distinct combination exactly once.

use std::collections::HashSet;

use bag_crafting::pickup::Pickup;
use bag_crafting::pickup::Pickup::{LilBattery, LuckyPenny, Nickel, Penny, RedHeart, SoulHeart};
use bag_crafting::enumerator::{PickupIterator, all_picks};

fn counts_of_list(pickups: &[Pickup]) -> Vec<u8> {
    let mut held = vec![0u8; 25];
    for p in pickups {
        held[p.ordinal()] += 1;
    }
    held
}

/// Every distinct sorted k-selection of the physical items, brute force.
fn brute_force_combinations(pickups: &[Pickup], k: usize) -> HashSet<Vec<Pickup>> {
    let mut out: HashSet<Vec<Pickup>> = HashSet::new();
    let n = pickups.len();
    let mut idx: Vec<usize> = (0..k).collect();
    if k > n {
        return out;
    }
    loop {
        let mut combo: Vec<Pickup> = idx.iter().map(|&i| pickups[i]).collect();
        combo.sort_by_key(|p| p.ordinal());
        out.insert(combo);
        // next index combination
        let mut i = k;
        loop {
            if i == 0 {
                return out;
            }
            i -= 1;
            if idx[i] != i + n - k {
                break;
            }
        }
        idx[i] += 1;
        for j in i + 1..k {
            idx[j] = idx[j - 1] + 1;
        }
    }
}

fn collect_walk(held: Vec<u8>, k: u8) -> Vec<Vec<Pickup>> {
    let mut it = PickupIterator::new(held, k);
    let mut out = Vec::new();
    while let Some(v) = it.next() {
        out.push(v);
    }
    out
}

#[test]
fn pickup_iterator() {
    let mut pickups = vec![
        RedHeart, RedHeart, SoulHeart, Penny, Penny, Nickel, LuckyPenny, LilBattery, RedHeart,
        RedHeart, SoulHeart, Penny, Penny, Nickel, LuckyPenny, LilBattery,
    ];
    pickups.sort_by_key(|p| p.ordinal());
    let held = counts_of_list(&pickups);
    let actual: HashSet<Vec<Pickup>> = collect_walk(held, 8)
        .into_iter()
        .map(|v| Vec::from(&v[..]))
        .collect();
    let correct = brute_force_combinations(&pickups, 8);
    let unexpected: HashSet<_> = actual.difference(&correct).collect();
    let expected: HashSet<_> = correct.difference(&actual).collect();
    assert!(
        unexpected.is_empty() && expected.is_empty(),
        "unexpected: {:?}\nexpected: {:?}",
        unexpected,
        expected
    );
}

#[test]
fn pickup_iterator_simple() {
    let mut pickups = vec![RedHeart, RedHeart, Nickel, LuckyPenny, LilBattery];
    pickups.sort_by_key(|p| p.ordinal());
    let held = counts_of_list(&pickups);
    let actual: HashSet<Vec<Pickup>> = collect_walk(held, 2)
        .into_iter()
        .map(|v| Vec::from(&v[..2]))
        .collect();
    let correct = brute_force_combinations(&pickups, 2);
    let unexpected: HashSet<_> = actual.difference(&correct).collect();
    let expected: HashSet<_> = correct.difference(&actual).collect();
    assert!(
        unexpected.is_empty() && expected.is_empty(),
        "unexpected: {:?}\nexpected: {:?}",
        unexpected,
        expected
    );
}

#[test]
fn pickup_iterator_med() {
    let mut pickups = vec![
        RedHeart, Nickel, Nickel, Nickel, LuckyPenny, LuckyPenny, LuckyPenny, LilBattery,
    ];
    pickups.sort_by_key(|p| p.ordinal());
    let held = counts_of_list(&pickups);
    let actual: HashSet<Vec<Pickup>> = collect_walk(held, 3)
        .into_iter()
        .map(|v| Vec::from(&v[..3]))
        .collect();
    let correct = brute_force_combinations(&pickups, 3);
    let unexpected: HashSet<_> = actual.difference(&correct).collect();
    let expected: HashSet<_> = correct.difference(&actual).collect();
    assert!(
        unexpected.is_empty() && expected.is_empty(),
        "unexpected: {:?}\nexpected: {:?}",
        unexpected,
        expected
    );
}

#[test]
fn walk_counts_exactly_the_distinct_sub_bags() {
    // held = [3, 2, 1] over three categories, size 3:
    // distinct multisets counted by hand: 6
    let mut held = vec![0u8; 25];
    held[0] = 3;
    held[1] = 2;
    held[2] = 1;
    let picks = all_picks(&held, 3);
    assert_eq!(picks.len(), 6);
    // no duplicates
    let set: HashSet<Vec<u8>> = picks.iter().cloned().collect();
    assert_eq!(set.len(), 6);
}

#[test]
fn walk_is_empty_when_too_few_are_held() {
    let mut held = vec![0u8; 25];
    held[4] = 2;
    let mut it = PickupIterator::new(held, 3);
    assert!(it.next().is_none());
    assert!(it.next().is_none());
}

#[test]
fn walk_of_size_zero_yields_one_empty_bag() {
    let mut held = vec![0u8; 25];
    held[7] = 4;
    let picks = all_picks(&held, 0);
    assert_eq!(picks.len(), 1);
    assert_eq!(picks[0], vec![0u8; 25]);
}

#[test]
fn walk_pads_emissions_to_eight_slots() {
    let mut held = vec![0u8; 25];
    held[21] = 2;
    let mut it = PickupIterator::new(held, 2);
    let v = it.next().unwrap();
    assert_eq!(v.len(), 8);
    assert_eq!(v[0], Pickup::Pill);
    assert_eq!(v[1], Pickup::Pill);
    assert_eq!(v[2], Pickup::RedHeart);
    assert!(it.next().is_none());
}
