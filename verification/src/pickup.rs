//! The 25 pickup categories, their fixed weights and mixing shift triples.

use vstd::prelude::*;

verus! {

/// One of the 25 pickup categories usable as a crafting ingredient.
///
/// Each category has a fixed ordinal (its position below, `0..25`), a fixed
/// integer weight, and a fixed triple of shift amounts that drive the
/// bit-mixing generator during crafting.
#[derive(Debug, Clone, Copy, PartialEq, Eq, Hash, Structural)]
pub enum Pickup {
    RedHeart,
    SoulHeart,
    BlackHeart,
    EternalHeart,
    GoldHeart,
    BoneHeart,
    RottenHeart,
    Penny,
    Nickel,
    Dime,
    LuckyPenny,
    Key,
    GoldenKey,
    ChargedKey,
    Bomb,
    GoldenBomb,
    GigaBomb,
    MicroBattery,
    LilBattery,
    MegaBattery,
    Card,
    Pill,
    Rune,
    DiceShard,
    CrackedKey,
}

/// Number of pickup categories.
pub const PICKUP_KINDS: usize = 25;

impl Pickup {
    /// Position of this category in the canonical total order.
    pub open spec fn ord(self) -> int {
        match self {
            Pickup::RedHeart => 0,
            Pickup::SoulHeart => 1,
            Pickup::BlackHeart => 2,
            Pickup::EternalHeart => 3,
            Pickup::GoldHeart => 4,
            Pickup::BoneHeart => 5,
            Pickup::RottenHeart => 6,
            Pickup::Penny => 7,
            Pickup::Nickel => 8,
            Pickup::Dime => 9,
            Pickup::LuckyPenny => 10,
            Pickup::Key => 11,
            Pickup::GoldenKey => 12,
            Pickup::ChargedKey => 13,
            Pickup::Bomb => 14,
            Pickup::GoldenBomb => 15,
            Pickup::GigaBomb => 16,
            Pickup::MicroBattery => 17,
            Pickup::LilBattery => 18,
            Pickup::MegaBattery => 19,
            Pickup::Card => 20,
            Pickup::Pill => 21,
            Pickup::Rune => 22,
            Pickup::DiceShard => 23,
            Pickup::CrackedKey => 24,
        }
    }

    /// Fixed weight of this category.
    pub open spec fn weight_spec(self) -> u32 {
        match self {
            Pickup::RedHeart => 1,
            Pickup::SoulHeart => 4,
            Pickup::BlackHeart => 5,
            Pickup::EternalHeart => 5,
            Pickup::GoldHeart => 5,
            Pickup::BoneHeart => 5,
            Pickup::RottenHeart => 1,
            Pickup::Penny => 1,
            Pickup::Nickel => 3,
            Pickup::Dime => 5,
            Pickup::LuckyPenny => 8,
            Pickup::Key => 2,
            Pickup::GoldenKey => 5,
            Pickup::ChargedKey => 5,
            Pickup::Bomb => 2,
            Pickup::GoldenBomb => 6,
            Pickup::GigaBomb => 10,
            Pickup::MicroBattery => 2,
            Pickup::LilBattery => 4,
            Pickup::MegaBattery => 8,
            Pickup::Card => 2,
            Pickup::Pill => 2,
            Pickup::Rune => 4,
            Pickup::DiceShard => 4,
            Pickup::CrackedKey => 2,
        }
    }

    /// Fixed shift triple of this category for the mixing generator.
    pub open spec fn shifts_spec(self) -> (u32, u32, u32) {
        match self {
            Pickup::RedHeart => (0x1, 0x5, 0x13),
            Pickup::SoulHeart => (0x1, 0x9, 0x1D),
            Pickup::BlackHeart => (0x1, 0xB, 0x6),
            Pickup::EternalHeart => (0x1, 0xB, 0x10),
            Pickup::GoldHeart => (0x1, 0x13, 0x3),
            Pickup::BoneHeart => (0x1, 0x15, 0x14),
            Pickup::RottenHeart => (0x1, 0x1B, 0x1B),
            Pickup::Penny => (0x2, 0x5, 0xF),
            Pickup::Nickel => (0x2, 0x5, 0x15),
            Pickup::Dime => (0x2, 0x7, 0x7),
            Pickup::LuckyPenny => (0x2, 0x7, 0x9),
            Pickup::Key => (0x2, 0x7, 0x19),
            Pickup::GoldenKey => (0x2, 0x9, 0xF),
            Pickup::ChargedKey => (0x2, 0xF, 0x11),
            Pickup::Bomb => (0x2, 0xF, 0x19),
            Pickup::GoldenBomb => (0x2, 0x15, 0x9),
            Pickup::GigaBomb => (0x3, 0x1, 0xE),
            Pickup::MicroBattery => (0x3, 0x3, 0x1A),
            Pickup::LilBattery => (0x3, 0x3, 0x1C),
            Pickup::MegaBattery => (0x3, 0x3, 0x1D),
            Pickup::Card => (0x3, 0x5, 0x14),
            Pickup::Pill => (0x3, 0x5, 0x16),
            Pickup::Rune => (0x3, 0x5, 0x19),
            Pickup::DiceShard => (0x3, 0x7, 0x1D),
            Pickup::CrackedKey => (0x3, 0xD, 0x7),
        }
    }

    /// Ordinal of this category, `0..25`.
    pub fn ordinal(self) -> (n: usize)
        ensures
            n as int == self.ord(),
            n < PICKUP_KINDS,
    {
        match self {
            Pickup::RedHeart => 0,
            Pickup::SoulHeart => 1,
            Pickup::BlackHeart => 2,
            Pickup::EternalHeart => 3,
            Pickup::GoldHeart => 4,
            Pickup::BoneHeart => 5,
            Pickup::RottenHeart => 6,
            Pickup::Penny => 7,
            Pickup::Nickel => 8,
            Pickup::Dime => 9,
            Pickup::LuckyPenny => 10,
            Pickup::Key => 11,
            Pickup::GoldenKey => 12,
            Pickup::ChargedKey => 13,
            Pickup::Bomb => 14,
            Pickup::GoldenBomb => 15,
            Pickup::GigaBomb => 16,
            Pickup::MicroBattery => 17,
            Pickup::LilBattery => 18,
            Pickup::MegaBattery => 19,
            Pickup::Card => 20,
            Pickup::Pill => 21,
            Pickup::Rune => 22,
            Pickup::DiceShard => 23,
            Pickup::CrackedKey => 24,
        }
    }

    /// The category at a given ordinal.
    pub fn from_ordinal(n: usize) -> (p: Pickup)
        requires
            n < PICKUP_KINDS,
        ensures
            p.ord() == n as int,
    {
        match n {
            0 => Pickup::RedHeart,
            1 => Pickup::SoulHeart,
            2 => Pickup::BlackHeart,
            3 => Pickup::EternalHeart,
            4 => Pickup::GoldHeart,
            5 => Pickup::BoneHeart,
            6 => Pickup::RottenHeart,
            7 => Pickup::Penny,
            8 => Pickup::Nickel,
            9 => Pickup::Dime,
            10 => Pickup::LuckyPenny,
            11 => Pickup::Key,
            12 => Pickup::GoldenKey,
            13 => Pickup::ChargedKey,
            14 => Pickup::Bomb,
            15 => Pickup::GoldenBomb,
            16 => Pickup::GigaBomb,
            17 => Pickup::MicroBattery,
            18 => Pickup::LilBattery,
            19 => Pickup::MegaBattery,
            20 => Pickup::Card,
            21 => Pickup::Pill,
            22 => Pickup::Rune,
            23 => Pickup::DiceShard,
            _ => Pickup::CrackedKey,
        }
    }

    /// Fixed weight of this category.
    pub fn weight(self) -> (w: u32)
        ensures
            w == self.weight_spec(),
            1 <= w <= 10,
    {
        match self {
            Pickup::RedHeart => 1,
            Pickup::SoulHeart => 4,
            Pickup::BlackHeart => 5,
            Pickup::EternalHeart => 5,
            Pickup::GoldHeart => 5,
            Pickup::BoneHeart => 5,
            Pickup::RottenHeart => 1,
            Pickup::Penny => 1,
            Pickup::Nickel => 3,
            Pickup::Dime => 5,
            Pickup::LuckyPenny => 8,
            Pickup::Key => 2,
            Pickup::GoldenKey => 5,
            Pickup::ChargedKey => 5,
            Pickup::Bomb => 2,
            Pickup::GoldenBomb => 6,
            Pickup::GigaBomb => 10,
            Pickup::MicroBattery => 2,
            Pickup::LilBattery => 4,
            Pickup::MegaBattery => 8,
            Pickup::Card => 2,
            Pickup::Pill => 2,
            Pickup::Rune => 4,
            Pickup::DiceShard => 4,
            Pickup::CrackedKey => 2,
        }
    }

    /// Shift triple of this category, each amount below 32.
    pub fn shifts(self) -> (t: (u32, u32, u32))
        ensures
            t == self.shifts_spec(),
            0 < t.0 < 32 && 0 < t.1 < 32 && 0 < t.2 < 32,
    {
        match self {
            Pickup::RedHeart => (0x1, 0x5, 0x13),
            Pickup::SoulHeart => (0x1, 0x9, 0x1D),
            Pickup::BlackHeart => (0x1, 0xB, 0x6),
            Pickup::EternalHeart => (0x1, 0xB, 0x10),
            Pickup::GoldHeart => (0x1, 0x13, 0x3),
            Pickup::BoneHeart => (0x1, 0x15, 0x14),
            Pickup::RottenHeart => (0x1, 0x1B, 0x1B),
            Pickup::Penny => (0x2, 0x5, 0xF),
            Pickup::Nickel => (0x2, 0x5, 0x15),
            Pickup::Dime => (0x2, 0x7, 0x7),
            Pickup::LuckyPenny => (0x2, 0x7, 0x9),
            Pickup::Key => (0x2, 0x7, 0x19),
            Pickup::GoldenKey => (0x2, 0x9, 0xF),
            Pickup::ChargedKey => (0x2, 0xF, 0x11),
            Pickup::Bomb => (0x2, 0xF, 0x19),
            Pickup::GoldenBomb => (0x2, 0x15, 0x9),
            Pickup::GigaBomb => (0x3, 0x1, 0xE),
            Pickup::MicroBattery => (0x3, 0x3, 0x1A),
            Pickup::LilBattery => (0x3, 0x3, 0x1C),
            Pickup::MegaBattery => (0x3, 0x3, 0x1D),
            Pickup::Card => (0x3, 0x5, 0x14),
            Pickup::Pill => (0x3, 0x5, 0x16),
            Pickup::Rune => (0x3, 0x5, 0x19),
            Pickup::DiceShard => (0x3, 0x7, 0x1D),
            Pickup::CrackedKey => (0x3, 0xD, 0x7),
        }
    }
}

/// The ordinal map is injective: distinct categories have distinct ordinals.
pub proof fn lemma_ord_injective(a: Pickup, b: Pickup)
    ensures
        a.ord() == b.ord() ==> a == b,
{
}

} // verus!
