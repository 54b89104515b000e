//! The bit-pattern arithmetic matches the machine's binary32 arithmetic.

use bag_crafting::ieee754::{mul_bits, add_bits, sub_bits, cvt_bits, is_neg};

const SIGN: u32 = 0x8000_0000;
const INF: u32 = 0x7F80_0000;

fn is_nan_bits(b: u32) -> bool {
    (b & 0x7FFF_FFFF) > INF
}

fn check_pair(a: u32, b: u32) {
    let fa = f32::from_bits(a);
    let fb = f32::from_bits(b);
    let want_mul = (fa * fb).to_bits();
    let got_mul = mul_bits(a, b);
    if is_nan_bits(want_mul) || is_nan_bits(got_mul) {
        assert!(
            is_nan_bits(want_mul) && is_nan_bits(got_mul),
            "mul NaN mismatch {:#x} {:#x}",
            a,
            b
        );
    } else {
        assert_eq!(got_mul, want_mul, "mul {:#x} {:#x}", a, b);
    }
    let want_add = (fa + fb).to_bits();
    let got_add = add_bits(a, b);
    if is_nan_bits(want_add) || is_nan_bits(got_add) {
        assert!(is_nan_bits(want_add) && is_nan_bits(got_add));
    } else {
        assert_eq!(got_add, want_add, "add {:#x} {:#x}", a, b);
    }
    let want_sub = (fa - fb).to_bits();
    let got_sub = sub_bits(a, b);
    if is_nan_bits(want_sub) || is_nan_bits(got_sub) {
        assert!(is_nan_bits(want_sub) && is_nan_bits(got_sub));
    } else {
        assert_eq!(got_sub, want_sub, "sub {:#x} {:#x}", a, b);
    }
    assert_eq!(is_neg(got_sub), f32::from_bits(got_sub) < 0.0);
}

#[test]
fn arithmetic_matches_hardware_on_edges() {
    let edges: Vec<u32> = vec![
        0,
        1,
        2,
        3,
        0x0000_00FF,
        0x007F_FFFF,
        0x0080_0000,
        0x0080_0001,
        0x00FF_FFFF,
        0x3F80_0000,
        0x3F80_0001,
        0x4000_0000,
        0x2F7F_FFFE,
        0x7F7F_FFFF,
        0x7F7F_FFFE,
        INF,
        0x4F80_0000,
        0x1000_0000,
        0x0001_0000,
    ];
    for &a in &edges {
        for &b in &edges {
            check_pair(a, b);
        }
    }
}

#[test]
fn arithmetic_matches_hardware_on_pseudorandom_patterns() {
    // a fixed linear congruential walk over sign-clear patterns
    let mut x: u64 = 0x1234_5678_9abc_def0;
    let mut patterns: Vec<u32> = Vec::new();
    for _ in 0..200 {
        x = x.wrapping_mul(6364136223846793005).wrapping_add(1442695040888963407);
        patterns.push(((x >> 16) as u32) & 0x7FFF_FFFF);
    }
    for i in 0..patterns.len() {
        let a = patterns[i];
        let b = patterns[(i * 7 + 3) % patterns.len()];
        check_pair(a, b);
    }
}

#[test]
fn conversion_matches_hardware() {
    let cases: Vec<u32> = vec![
        0,
        1,
        2,
        25,
        80,
        0x00FF_FFFF,
        0x0100_0000,
        0x0100_0001,
        0x0100_0002,
        0x0100_0003,
        0xFFFF_FFFF,
        0xFFFF_FF7F,
        0x8000_0000,
        0x7777_7770,
        0xDEAD_BEEF,
    ];
    for &n in &cases {
        assert_eq!(cvt_bits(n), (n as f32).to_bits(), "cvt {}", n);
    }
    let mut x: u64 = 0x9e37_79b9_7f4a_7c15;
    for _ in 0..500 {
        x = x.wrapping_mul(6364136223846793005).wrapping_add(1442695040888963407);
        let n = (x >> 24) as u32;
        assert_eq!(cvt_bits(n), (n as f32).to_bits(), "cvt {}", n);
    }
}

#[test]
fn sign_test_matches_hardware() {
    let cases: Vec<u32> = vec![
        0,
        SIGN,
        SIGN + 1,
        SIGN + INF,
        SIGN + INF + 1,
        1,
        INF,
        0x7FC0_0000,
        0xFFC0_0000,
        0xBF80_0000,
    ];
    for &b in &cases {
        assert_eq!(is_neg(b), f32::from_bits(b) < 0.0, "is_neg {:#x}", b);
    }
}
