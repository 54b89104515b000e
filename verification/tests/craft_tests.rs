//! The crafting rule on a small hand-built catalog, pinned to exact items.

use bag_crafting::pickup::Pickup;
use bag_crafting::pickup::Pickup::{BlackHeart, Bomb, BoneHeart, Card, CrackedKey, DiceShard, EternalHeart, GigaBomb, GoldHeart, Key, LuckyPenny, Nickel, Penny, Pill, RedHeart, RottenHeart, Rune, SoulHeart};
use bag_crafting::recipe::InternalPickups;
use bag_crafting::catalog::BasicCrafter;

fn b(x: f32) -> u32 {
    x.to_bits()
}

/// A small catalog covering all ten crafting pools.
fn test_catalog() -> BasicCrafter {
    let pools: Vec<(u32, Vec<(u16, u32)>)> = vec![
        (0, vec![(10, b(1.0)), (20, b(2.0)), (30, b(0.5)), (40, b(1.0)), (50, b(3.0))]),
        (1, vec![(20, b(1.0)), (60, b(2.5)), (70, b(1.0))]),
        (2, vec![(30, b(2.0)), (80, b(1.0)), (90, b(0.75))]),
        (3, vec![(100, b(1.0)), (110, b(2.0))]),
        (4, vec![(120, b(1.0)), (130, b(1.0))]),
        (5, vec![(140, b(1.0)), (150, b(2.0))]),
        (8, vec![(160, b(1.0))]),
        (9, vec![(170, b(1.0))]),
        (12, vec![(180, b(1.0))]),
        (26, vec![(190, b(1.0)), (200, b(1.0))]),
    ];
    let qualities: Vec<(u16, u32)> = vec![
        (10, 0),
        (20, 1),
        (30, 2),
        (40, 3),
        (50, 4),
        (60, 1),
        (70, 2),
        (80, 0),
        (90, 1),
        (100, 2),
        (110, 3),
        (120, 4),
        (130, 1),
        (140, 2),
        (150, 3),
        (160, 0),
        (170, 1),
        (180, 2),
        (190, 1),
        (200, 3),
    ];
    BasicCrafter::new(pools, qualities).unwrap()
}

fn craft_of(c: &BasicCrafter, slots: [Pickup; 8]) -> u16 {
    c.craft(&InternalPickups::new(slots)).value()
}

#[test]
fn craft_soul_hearts() {
    let c = test_catalog();
    assert_eq!(
        craft_of(
            &c,
            [SoulHeart, SoulHeart, SoulHeart, SoulHeart, SoulHeart, SoulHeart, SoulHeart,
                SoulHeart],
        ),
        40
    );
}

#[test]
fn craft_mixed_bag() {
    let c = test_catalog();
    assert_eq!(
        craft_of(
            &c,
            [RedHeart, RedHeart, SoulHeart, Penny, Penny, Nickel, LuckyPenny, Key],
        ),
        20
    );
}

#[test]
fn craft_planetarium_bag() {
    let c = test_catalog();
    assert_eq!(
        craft_of(
            &c,
            [SoulHeart, SoulHeart, Nickel, Card, Card, Rune, Rune, Rune],
        ),
        200
    );
}

#[test]
fn craft_heart_pools() {
    let c = test_catalog();
    assert_eq!(
        craft_of(
            &c,
            [EternalHeart, EternalHeart, EternalHeart, EternalHeart, BlackHeart, BlackHeart,
                BlackHeart, BlackHeart],
        ),
        120
    );
    assert_eq!(
        craft_of(
            &c,
            [BoneHeart, BoneHeart, BoneHeart, BoneHeart, BoneHeart, BoneHeart, BoneHeart,
                BoneHeart],
        ),
        50
    );
    assert_eq!(
        craft_of(
            &c,
            [GoldHeart, GoldHeart, RottenHeart, CrackedKey, Rune, Rune, DiceShard, DiceShard],
        ),
        200
    );
}

#[test]
fn craft_weight_extremes() {
    let c = test_catalog();
    assert_eq!(
        craft_of(&c, [Penny, Penny, Penny, Penny, Penny, Penny, Penny, Penny]),
        20
    );
    assert_eq!(
        craft_of(
            &c,
            [LuckyPenny, LuckyPenny, LuckyPenny, LuckyPenny, LuckyPenny, LuckyPenny, LuckyPenny,
                LuckyPenny],
        ),
        50
    );
    assert_eq!(
        craft_of(
            &c,
            [GigaBomb, GigaBomb, GigaBomb, GigaBomb, GigaBomb, GigaBomb, GigaBomb, GigaBomb],
        ),
        50
    );
    assert_eq!(
        craft_of(
            &c,
            [RedHeart, Penny, Key, Bomb, Card, Pill, Rune, DiceShard],
        ),
        30
    );
}

#[test]
fn craft_is_deterministic() {
    let c = test_catalog();
    let r = [RedHeart, RedHeart, SoulHeart, Penny, Penny, Nickel, LuckyPenny, Key];
    let a = craft_of(&c, r);
    let bb = craft_of(&c, r);
    assert_eq!(a, bb);
}

#[test]
fn craft_ignores_input_order() {
    let c = test_catalog();
    let a = craft_of(
        &c,
        [RedHeart, RedHeart, SoulHeart, Penny, Penny, Nickel, LuckyPenny, Key],
    );
    let bb = craft_of(
        &c,
        [Key, LuckyPenny, Nickel, Penny, Penny, SoulHeart, RedHeart, RedHeart],
    );
    let cc = craft_of(
        &c,
        [Penny, RedHeart, Key, SoulHeart, LuckyPenny, RedHeart, Nickel, Penny],
    );
    assert_eq!(a, bb);
    assert_eq!(a, cc);
}

#[test]
fn craft_falls_back_on_empty_pools() {
    // all ten crafting pools present but empty: nothing can be drawn, and
    // the fixed fallback id stands
    let pools: Vec<(u32, Vec<(u16, u32)>)> = vec![
        (0, vec![]),
        (1, vec![]),
        (2, vec![]),
        (3, vec![]),
        (4, vec![]),
        (5, vec![]),
        (8, vec![]),
        (9, vec![]),
        (12, vec![]),
        (26, vec![]),
    ];
    let c = BasicCrafter::new(pools, vec![]).unwrap();
    assert_eq!(
        craft_of(
            &c,
            [SoulHeart, SoulHeart, SoulHeart, SoulHeart, SoulHeart, SoulHeart, SoulHeart,
                SoulHeart],
        ),
        25
    );
}
