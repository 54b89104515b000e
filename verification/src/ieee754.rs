//! IEEE-754 single-precision arithmetic on raw bit patterns.
//!
//! The weighted draw must reproduce binary32 arithmetic bit for bit, so the
//! operations the draw needs (convert, multiply, add, subtract, sign test)
//! are computed here on `u32` bit patterns with plain integer arithmetic,
//! round-to-nearest ties-to-even throughout. All stored quantities in the
//! draw are non-negative, so every operation takes sign-clear operands; only
//! subtraction may produce a sign-set result.

use vstd::prelude::*;

verus! {

/// Bit pattern of positive infinity.
pub const INF_BITS: u32 = 0x7F80_0000;
/// Bit pattern of the canonical quiet NaN.
pub const QNAN_BITS: u32 = 0x7FC0_0000;
/// The sign bit.
pub const SIGN_BITS: u32 = 0x8000_0000;

/// 2^k for k >= 0 (and 1 for negative k, a case no caller uses).
pub open spec fn two_pow(k: int) -> int
    decreases k,
{
    if k <= 0 {
        1
    } else {
        2 * two_pow(k - 1)
    }
}

/// Floor of the base-2 logarithm (0 for inputs below 2).
pub open spec fn lg2(n: int) -> int
    decreases n,
{
    if n < 2 {
        0
    } else {
        1 + lg2(n / 2)
    }
}

pub proof fn lemma_two_pow_pos(k: int)
    ensures
        two_pow(k) >= 1,
    decreases k,
{
    if k > 0 {
        lemma_two_pow_pos(k - 1);
    }
}

pub proof fn lemma_two_pow_add(a: int, b: int)
    requires
        a >= 0,
        b >= 0,
    ensures
        two_pow(a + b) == two_pow(a) * two_pow(b),
    decreases a,
{
    if a == 0 {
    } else {
        lemma_two_pow_add(a - 1, b);
        assert(2 * (two_pow(a - 1) * two_pow(b)) == (2 * two_pow(a - 1)) * two_pow(b))
            by (nonlinear_arith);
    }
}

pub proof fn lemma_two_pow_mono(a: int, b: int)
    requires
        a <= b,
    ensures
        two_pow(a) <= two_pow(b),
    decreases b - a,
{
    if a < b {
        lemma_two_pow_mono(a, b - 1);
        lemma_two_pow_pos(b - 1);
    }
}

pub proof fn lemma_lg2_bounds(n: int)
    requires
        n >= 1,
    ensures
        lg2(n) >= 0,
        two_pow(lg2(n)) <= n,
        n < two_pow(lg2(n) + 1),
    decreases n,
{
    if n >= 2 {
        lemma_lg2_bounds(n / 2);
    }
}

/// If n < 2^k then lg2(n) < k.
pub proof fn lemma_lg2_below(n: int, k: int)
    requires
        1 <= n,
        0 <= k,
        n < two_pow(k),
    ensures
        lg2(n) < k,
{
    lemma_lg2_bounds(n);
    if lg2(n) >= k {
        lemma_two_pow_mono(k, lg2(n));
    }
}

/// Significand of a finite nonzero sign-clear bit pattern, with the implicit
/// bit restored for normal numbers.
pub open spec fn unpack_sig(b: u32) -> int {
    if b / 0x0080_0000 == 0 {
        b as int
    } else {
        (b as int % 0x0080_0000) + 0x0080_0000
    }
}

/// Biased exponent of a finite nonzero sign-clear bit pattern, with
/// subnormals sharing the exponent of the smallest normals. The value of the
/// pattern is `unpack_sig(b) * 2^(unpack_exp(b) - 150)`.
pub open spec fn unpack_exp(b: u32) -> int {
    if b / 0x0080_0000 == 0 {
        1
    } else {
        b as int / 0x0080_0000
    }
}

/// Round `sig * 2^(e - 150)` (sig >= 1) to the nearest representable
/// non-negative binary32 pattern, ties to even, overflowing to infinity.
pub open spec fn round_pack_spec(sig: int, e: int) -> u32
    recommends
        1 <= sig,
{
    let l = lg2(sig);
    let sig1 = if l < 23 {
        sig * two_pow(23 - l)
    } else {
        sig
    };
    let shift0 = if l < 23 {
        0
    } else {
        l - 23
    };
    let e2 = e + l - 23;
    let shift_a = if e2 < 1 {
        shift0 + 1 - e2
    } else {
        shift0
    };
    let e3 = if e2 < 1 {
        1int
    } else {
        e2
    };
    let shift = if shift_a > 63 {
        63int
    } else {
        shift_a
    };
    let rounded0 = sig1 / two_pow(shift);
    let rem = sig1 % two_pow(shift);
    let half = two_pow(shift) / 2;
    let rounded1 = if shift >= 1 && (rem > half || (rem == half && rounded0 % 2 == 1)) {
        rounded0 + 1
    } else {
        rounded0
    };
    let rounded2 = if rounded1 == 0x0100_0000 {
        0x0080_0000int
    } else {
        rounded1
    };
    let e4 = if rounded1 == 0x0100_0000 {
        e3 + 1
    } else {
        e3
    };
    if rounded2 >= 0x0080_0000 && e4 >= 255 {
        0x7F80_0000u32
    } else if rounded2 == 0 {
        0u32
    } else if rounded2 < 0x0080_0000 {
        rounded2 as u32
    } else {
        (e4 * 0x0080_0000 + (rounded2 - 0x0080_0000)) as u32
    }
}

/// Product of two sign-clear patterns.
pub open spec fn mul_spec(a: u32, b: u32) -> u32 {
    if a > 0x7F80_0000 || b > 0x7F80_0000 {
        QNAN_BITS
    } else if a == 0x7F80_0000 {
        if b == 0 {
            QNAN_BITS
        } else {
            INF_BITS
        }
    } else if b == 0x7F80_0000 {
        if a == 0 {
            QNAN_BITS
        } else {
            INF_BITS
        }
    } else if a == 0 || b == 0 {
        0u32
    } else {
        round_pack_spec(unpack_sig(a) * unpack_sig(b), unpack_exp(a) + unpack_exp(b) - 150)
    }
}

/// Sum of two sign-clear patterns.
pub open spec fn add_spec(a: u32, b: u32) -> u32 {
    if a > 0x7F80_0000 || b > 0x7F80_0000 {
        QNAN_BITS
    } else if a == 0x7F80_0000 || b == 0x7F80_0000 {
        INF_BITS
    } else if a == 0 {
        b
    } else if b == 0 {
        a
    } else if unpack_exp(a) >= unpack_exp(b) {
        let d = unpack_exp(a) - unpack_exp(b);
        if d >= 27 {
            a
        } else {
            round_pack_spec(unpack_sig(a) * two_pow(d) + unpack_sig(b), unpack_exp(b))
        }
    } else {
        let d = unpack_exp(b) - unpack_exp(a);
        if d >= 27 {
            b
        } else {
            round_pack_spec(unpack_sig(b) * two_pow(d) + unpack_sig(a), unpack_exp(a))
        }
    }
}

/// Difference `a - b` of two sign-clear patterns; the result may be
/// sign-set.
pub open spec fn sub_spec(a: u32, b: u32) -> u32 {
    if a > 0x7F80_0000 || b > 0x7F80_0000 {
        QNAN_BITS
    } else if a == 0x7F80_0000 {
        if b == 0x7F80_0000 {
            QNAN_BITS
        } else {
            INF_BITS
        }
    } else if b == 0x7F80_0000 {
        0xFF80_0000u32
    } else if a == b {
        0u32
    } else if b == 0 {
        a
    } else if a == 0 {
        (SIGN_BITS + b) as u32
    } else if unpack_exp(a) >= unpack_exp(b) {
        let d = unpack_exp(a) - unpack_exp(b);
        if d >= 27 {
            a
        } else {
            let hi = unpack_sig(a) * two_pow(d);
            if hi >= unpack_sig(b) {
                round_pack_spec(hi - unpack_sig(b), unpack_exp(b))
            } else {
                (SIGN_BITS + round_pack_spec(unpack_sig(b) - hi, unpack_exp(b))) as u32
            }
        }
    } else {
        let d = unpack_exp(b) - unpack_exp(a);
        if d >= 27 {
            (SIGN_BITS + b) as u32
        } else {
            (SIGN_BITS + round_pack_spec(
                unpack_sig(b) * two_pow(d) - unpack_sig(a),
                unpack_exp(a),
            )) as u32
        }
    }
}

/// The pattern a 32-bit unsigned integer converts to.
pub open spec fn cvt_spec(n: u32) -> u32 {
    if n == 0 {
        0u32
    } else {
        round_pack_spec(n as int, 150)
    }
}

/// Whether a pattern compares strictly below zero (NaN and negative zero do
/// not).
pub open spec fn is_neg_spec(b: u32) -> bool {
    b > 0x8000_0000 && b - 0x8000_0000 <= 0x7F80_0000
}

/// Numeric values of the powers of two the arithmetic manipulates.
pub proof fn lemma_two_pow_values()
    ensures
        two_pow(1) == 2,
        two_pow(12) == 0x1000,
        two_pow(23) == 0x0080_0000,
        two_pow(24) == 0x0100_0000,
        two_pow(26) == 0x0400_0000,
        two_pow(27) == 0x0800_0000,
        two_pow(48) == 0x1_0000_0000_0000,
        two_pow(51) == 0x8_0000_0000_0000,
        two_pow(63) == 0x8000_0000_0000_0000,
        two_pow(64) == 0x1_0000_0000_0000_0000,
{
    reveal_with_fuel(two_pow, 28);
    assert(two_pow(27) == 0x0800_0000);
    lemma_two_pow_add(24, 24);
    lemma_two_pow_add(27, 24);
    lemma_two_pow_add(51, 12);
    lemma_two_pow_add(51, 13);
}

/// Doubling the significand while lowering the scale by one leaves the
/// rounded result unchanged.
pub proof fn lemma_round_pack_double(sig: int, e: int)
    requires
        1 <= sig < 0x0080_0000,
    ensures
        round_pack_spec(2 * sig, e - 1) == round_pack_spec(sig, e),
{
    lemma_two_pow_values();
    lemma_lg2_below(sig, 23);
    let l = lg2(sig);
    lemma_lg2_bounds(sig);
    assert(lg2(2 * sig) == 1 + lg2((2 * sig) / 2));
    assert((2 * sig) / 2 == sig);
    assert(lg2(2 * sig) == l + 1);
    if l + 1 < 23 {
        assert(two_pow(23 - l) == 2 * two_pow(22 - l));
        assert(sig * two_pow(23 - l) == (2 * sig) * two_pow(23 - (l + 1))) by (nonlinear_arith)
            requires
                two_pow(23 - l) == 2 * two_pow(22 - l),
                23 - (l + 1) == 22 - l,
        ;
    } else {
        assert(l == 22);
        assert(two_pow(23 - l) == 2);
        assert(sig * two_pow(23 - l) == 2 * sig);
    }
}

/// The rounded result never exceeds the infinity pattern, and a value at
/// least the smallest subnormal never rounds to zero.
pub proof fn lemma_round_pack_bounds(sig: int, e: int)
    requires
        1 <= sig < 0x8_0000_0000_0000,
    ensures
        round_pack_spec(sig, e) <= 0x7F80_0000,
        e >= 1 ==> round_pack_spec(sig, e) >= 1,
{
    lemma_two_pow_values();
    let l = lg2(sig);
    lemma_lg2_bounds(sig);
    let sig1 = if l < 23 {
        sig * two_pow(23 - l)
    } else {
        sig
    };
    let shift0 = if l < 23 {
        0
    } else {
        l - 23
    };
    let e2 = e + l - 23;
    let shift_a = if e2 < 1 {
        shift0 + 1 - e2
    } else {
        shift0
    };
    let shift = if shift_a > 63 {
        63int
    } else {
        shift_a
    };
    // sig1 < two_pow(shift0 + 24), hence rounded0 < 2^24
    if l < 23 {
        lemma_two_pow_add(l + 1, 23 - l);
        lemma_two_pow_pos(23 - l);
        assert(sig1 < two_pow(24)) by (nonlinear_arith)
            requires
                sig < two_pow(l + 1),
                sig1 == sig * two_pow(23 - l),
                two_pow(l + 1) * two_pow(23 - l) == two_pow(24),
                two_pow(23 - l) > 0,
        ;
        assert(two_pow(0) == 1);
    } else {
        assert(sig1 < two_pow(l + 1));
        lemma_two_pow_add(shift0, 24);
    }
    assert(sig1 < two_pow(shift0) * two_pow(24));
    assert(shift0 <= 51) by {
        if l >= 23 {
            lemma_lg2_below(sig, 51);
        }
    }
    assert(two_pow(shift0) <= two_pow(shift)) by {
        if e2 < 1 {
            if shift_a > 63 {
                lemma_two_pow_mono(shift0, 63);
            } else {
                lemma_two_pow_mono(shift0, shift_a);
            }
        }
    }
    let rounded0 = sig1 / two_pow(shift);
    assert(sig1 < two_pow(shift) * two_pow(24)) by (nonlinear_arith)
        requires
            sig1 < two_pow(shift0) * two_pow(24),
            two_pow(shift0) <= two_pow(shift),
            two_pow(24) > 0,
    ;
    assert(rounded0 < two_pow(24)) by {
        lemma_two_pow_pos(shift);
        vstd::arithmetic::div_mod::lemma_multiply_divide_lt(sig1, two_pow(shift), two_pow(24));
    }
    if e >= 1 {
        assert(sig1 >= two_pow(23)) by {
            if l < 23 {
                lemma_two_pow_add(l, 23 - l);
                lemma_two_pow_pos(23 - l);
                assert(sig1 >= two_pow(23)) by (nonlinear_arith)
                    requires
                        sig >= two_pow(l),
                        sig1 == sig * two_pow(23 - l),
                        two_pow(l) * two_pow(23 - l) == two_pow(23),
                        two_pow(23 - l) >= 1,
                        sig >= 1,
                ;
            } else {
                lemma_two_pow_mono(23, l);
            }
        }
        assert(two_pow(shift) <= sig1) by {
            if e2 < 1 {
                assert(l < 23);
                assert(shift == 24 - e - l);
                lemma_two_pow_mono(shift, 23);
            } else {
                if l < 23 {
                    lemma_two_pow_pos(0);
                } else {
                    lemma_two_pow_mono(shift0, l);
                    lemma_two_pow_mono(l, l);
                }
            }
        }
        assert(rounded0 >= 1) by {
            lemma_two_pow_pos(shift);
            vstd::arithmetic::div_mod::lemma_div_is_ordered(two_pow(shift), sig1, two_pow(shift));
            vstd::arithmetic::div_mod::lemma_div_by_self(two_pow(shift));
        }
    }
}

/// Subtracting sign-clear operands gives either a sign-clear pattern or one
/// the strict below-zero test accepts; negative zero never appears.
pub proof fn lemma_sub_keeps_domain(a: u32, b: u32)
    requires
        a < 0x8000_0000,
        b < 0x8000_0000,
    ensures
        is_neg_spec(sub_spec(a, b)) || sub_spec(a, b) < 0x8000_0000,
{
    lemma_two_pow_values();
    let r = sub_spec(a, b);
    if a > 0x7F80_0000 || b > 0x7F80_0000 {
    } else if a == 0x7F80_0000 {
    } else if b == 0x7F80_0000 {
    } else if a == b {
    } else if b == 0 {
    } else if a == 0 {
        assert(b >= 1 && b <= 0x7F80_0000);
    } else {
        let sa = unpack_sig(a);
        let ea = unpack_exp(a);
        let sb = unpack_sig(b);
        let eb = unpack_exp(b);
        assert(1 <= sa < 0x0100_0000 && 1 <= ea <= 254);
        assert(1 <= sb < 0x0100_0000 && 1 <= eb <= 254);
        if ea >= eb {
            let d = ea - eb;
            if d >= 27 {
            } else {
                lemma_two_pow_mono(d, 26);
                lemma_two_pow_pos(d);
                let hi = sa * two_pow(d);
                assert(hi < 0x4_0000_0000_0000) by (nonlinear_arith)
                    requires
                        sa < 0x0100_0000,
                        0 < two_pow(d) <= 0x0400_0000,
                        hi == sa * two_pow(d),
                ;
                assert(hi >= 1) by (nonlinear_arith)
                    requires
                        sa >= 1,
                        two_pow(d) >= 1,
                        hi == sa * two_pow(d),
                ;
                if hi >= sb {
                    assert(hi > sb) by {
                        if d >= 1 {
                            assert(ea >= 2);
                            assert(a as int / 0x0080_0000 >= 2);
                            assert(sa >= 0x0080_0000);
                            assert(hi >= 0x0100_0000) by (nonlinear_arith)
                                requires
                                    sa >= 0x0080_0000,
                                    two_pow(d) >= 2,
                                    hi == sa * two_pow(d),
                            ;
                        } else {
                            assert(two_pow(0) == 1);
                            assert(hi == sa) by (nonlinear_arith)
                                requires
                                    hi == sa * two_pow(d),
                                    two_pow(d) == 1,
                            ;
                            if sa == sb {
                                vstd::arithmetic::div_mod::lemma_fundamental_div_mod(
                                    a as int,
                                    0x0080_0000,
                                );
                                vstd::arithmetic::div_mod::lemma_fundamental_div_mod(
                                    b as int,
                                    0x0080_0000,
                                );
                                assert(false);
                            }
                        }
                    }
                    lemma_round_pack_bounds(hi - sb, eb);
                } else {
                    lemma_round_pack_bounds(sb - hi, eb);
                }
            }
        } else {
            let d = eb - ea;
            if d >= 27 {
                assert(b >= 1);
            } else {
                lemma_two_pow_mono(d, 26);
                lemma_two_pow_pos(d);
                assert(eb >= 2);
                assert(b as int / 0x0080_0000 >= 2);
                assert(sb >= 0x0080_0000);
                let hi = sb * two_pow(d);
                assert(hi < 0x4_0000_0000_0000) by (nonlinear_arith)
                    requires
                        sb < 0x0100_0000,
                        0 < two_pow(d) <= 0x0400_0000,
                        hi == sb * two_pow(d),
                ;
                assert(hi >= 0x0100_0000) by (nonlinear_arith)
                    requires
                        sb >= 0x0080_0000,
                        two_pow(d) >= 2,
                        hi == sb * two_pow(d),
                ;
                lemma_round_pack_bounds(hi - sa, ea);
            }
        }
    }
}

/// 2^k as an executable value.
pub(crate) fn pow2_u64(k: u64) -> (r: u64)
    requires
        k <= 63,
    ensures
        r as int == two_pow(k as int),
        r >= 1,
{
    proof {
        lemma_two_pow_values();
    }
    let mut r: u64 = 1;
    let mut i: u64 = 0;
    while i < k
        invariant
            i <= k,
            k <= 63,
            r as int == two_pow(i as int),
        decreases k - i,
    {
        proof {
            lemma_two_pow_values();
            lemma_two_pow_mono(i as int + 1, 63);
            lemma_two_pow_pos(i as int);
        }
        r = r * 2;
        i = i + 1;
    }
    proof {
        lemma_two_pow_pos(k as int);
    }
    r
}

/// Floor of the base-2 logarithm as an executable value.
pub(crate) fn lg2_u64(n: u64) -> (r: u64)
    requires
        1 <= n,
    ensures
        r as int == lg2(n as int),
        r <= 63,
{
    proof {
        lemma_two_pow_values();
        lemma_lg2_below(n as int, 64);
        lemma_lg2_bounds(n as int);
    }
    let mut m = n;
    let mut r: u64 = 0;
    while m >= 2
        invariant
            1 <= m,
            r as int + lg2(m as int) == lg2(n as int),
            lg2(n as int) <= 63,
        decreases m,
    {
        proof {
            lemma_lg2_bounds(m as int);
            assert(lg2(m as int) == 1 + lg2(m as int / 2));
        }
        m = m / 2;
        r = r + 1;
    }
    proof {
        lemma_lg2_bounds(m as int);
    }
    r
}

/// Round `sig0 * 2^(e0 - 150)` to the nearest non-negative pattern.
pub(crate) fn round_pack(sig0: u64, e0: i64) -> (r: u32)
    requires
        1 <= sig0 < 0x8_0000_0000_0000,
        -400 <= e0 <= 400,
    ensures
        r == round_pack_spec(sig0 as int, e0 as int),
        r <= 0x7F80_0000,
{
    proof {
        lemma_two_pow_values();
        lemma_round_pack_bounds(sig0 as int, e0 as int);
        assert(two_pow(0) == 1);
        assert((sig0 as int) * 1 == sig0 as int);
    }
    let mut sig = sig0;
    let mut e = e0;
    while sig < 0x0080_0000
        invariant
            1 <= sig < 0x8_0000_0000_0000,
            -400 <= e0 <= 400,
            e0 - 23 <= e <= e0,
            sig as int == (sig0 as int) * two_pow((e0 - e) as int),
            round_pack_spec(sig as int, e as int) == round_pack_spec(sig0 as int, e0 as int),
        decreases 0x0100_0000int - sig,
    {
        proof {
            lemma_two_pow_values();
            let d = (e0 - e) as int;
            lemma_two_pow_pos(d);
            assert(two_pow(d) <= (sig as int)) by (nonlinear_arith)
                requires
                    sig as int == (sig0 as int) * two_pow(d),
                    sig0 >= 1,
                    two_pow(d) >= 1,
            ;
            assert(d < 23) by {
                if d >= 23 {
                    lemma_two_pow_mono(23, d);
                }
            }
            assert(two_pow(d + 1) == 2 * two_pow(d));
            assert(2 * (sig as int) == (sig0 as int) * two_pow(d + 1)) by (nonlinear_arith)
                requires
                    sig as int == (sig0 as int) * two_pow(d),
                    two_pow(d + 1) == 2 * two_pow(d),
            ;
            lemma_round_pack_double(sig as int, e as int);
        }
        sig = sig * 2;
        e = e - 1;
    }
    let l = lg2_u64(sig);
    proof {
        lemma_two_pow_values();
        lemma_lg2_bounds(sig as int);
        lemma_lg2_below(sig as int, 51);
        if (l as int) < 23 {
            lemma_two_pow_mono(l as int + 1, 23);
        }
    }
    let shift0: u64 = l - 23;
    let e2: i64 = e + (l as i64) - 23;
    let shift_uncapped: u64;
    let e3: i64;
    if e2 < 1 {
        shift_uncapped = shift0 + ((1 - e2) as u64);
        e3 = 1;
    } else {
        shift_uncapped = shift0;
        e3 = e2;
    }
    let shift: u64 = if shift_uncapped > 63 {
        63
    } else {
        shift_uncapped
    };
    proof {
        assert(shift0 <= shift);
        lemma_two_pow_mono(shift0 as int, shift as int);
        lemma_two_pow_add(shift0 as int, 24);
        assert((sig as int) < two_pow(shift0 as int) * two_pow(24));
        assert((sig as int) < two_pow(shift as int) * two_pow(24)) by (nonlinear_arith)
            requires
                (sig as int) < two_pow(shift0 as int) * two_pow(24),
                two_pow(shift0 as int) <= two_pow(shift as int),
                two_pow(24) > 0,
        ;
    }
    let p = pow2_u64(shift);
    let rounded0 = sig / p;
    let rem = sig % p;
    proof {
        vstd::arithmetic::div_mod::lemma_multiply_divide_lt(
            sig as int,
            two_pow(shift as int),
            two_pow(24),
        );
        lemma_two_pow_values();
    }
    let mut rounded = rounded0;
    if shift >= 1 {
        let half = p / 2;
        if rem > half || (rem == half && rounded0 % 2 == 1) {
            rounded = rounded0 + 1;
        }
    }
    let mut e4 = e3;
    if rounded == 0x0100_0000 {
        rounded = 0x0080_0000;
        e4 = e3 + 1;
    }
    if rounded >= 0x0080_0000 && e4 >= 255 {
        0x7F80_0000u32
    } else if rounded == 0 {
        0u32
    } else if rounded < 0x0080_0000 {
        rounded as u32
    } else {
        (e4 as u32) * 0x0080_0000u32 + (rounded as u32 - 0x0080_0000u32)
    }
}

/// Significand and scale of a finite nonzero sign-clear pattern.
fn unpack_bits(b: u32) -> (r: (u64, i64))
    requires
        1 <= b < 0x7F80_0000,
    ensures
        r.0 as int == unpack_sig(b),
        r.1 as int == unpack_exp(b),
        1 <= r.0 < 0x0100_0000,
        1 <= r.1 <= 254,
{
    let ef = b / 0x0080_0000;
    let frac = b % 0x0080_0000;
    if ef == 0 {
        (b as u64, 1)
    } else {
        ((frac + 0x0080_0000) as u64, ef as i64)
    }
}

/// Product of two sign-clear patterns, bit-exact binary32.
pub fn mul_bits(a: u32, b: u32) -> (r: u32)
    requires
        a < 0x8000_0000,
        b < 0x8000_0000,
    ensures
        r == mul_spec(a, b),
        r < 0x8000_0000,
{
    if a > 0x7F80_0000 || b > 0x7F80_0000 {
        return QNAN_BITS;
    }
    if a == 0x7F80_0000 {
        return if b == 0 {
            QNAN_BITS
        } else {
            INF_BITS
        };
    }
    if b == 0x7F80_0000 {
        return if a == 0 {
            QNAN_BITS
        } else {
            INF_BITS
        };
    }
    if a == 0 || b == 0 {
        return 0;
    }
    let (sa, ea) = unpack_bits(a);
    let (sb, eb) = unpack_bits(b);
    proof {
        lemma_two_pow_values();
        assert((sa as int) * (sb as int) < 0x1_0000_0000_0000) by (nonlinear_arith)
            requires
                sa < 0x0100_0000,
                sb < 0x0100_0000,
        ;
        assert((sa as int) * (sb as int) >= 1) by (nonlinear_arith)
            requires
                sa >= 1,
                sb >= 1,
        ;
    }
    round_pack(sa * sb, ea + eb - 150)
}

/// Sum of two sign-clear patterns, bit-exact binary32.
pub fn add_bits(a: u32, b: u32) -> (r: u32)
    requires
        a < 0x8000_0000,
        b < 0x8000_0000,
    ensures
        r == add_spec(a, b),
        r < 0x8000_0000,
{
    if a > 0x7F80_0000 || b > 0x7F80_0000 {
        return QNAN_BITS;
    }
    if a == 0x7F80_0000 || b == 0x7F80_0000 {
        return INF_BITS;
    }
    if a == 0 {
        return b;
    }
    if b == 0 {
        return a;
    }
    let (sa, ea) = unpack_bits(a);
    let (sb, eb) = unpack_bits(b);
    if ea >= eb {
        let d = (ea - eb) as u64;
        if d >= 27 {
            return a;
        }
        let p = pow2_u64(d);
        proof {
            lemma_two_pow_values();
            lemma_two_pow_mono(d as int, 26);
            assert((sa as int) * (p as int) < 0x4_0000_0000_0000) by (nonlinear_arith)
                requires
                    sa < 0x0100_0000,
                    p as int <= 0x0400_0000,
                    p >= 1,
            ;
            assert((sa as int) * (p as int) >= 1) by (nonlinear_arith)
                requires
                    sa >= 1,
                    p >= 1,
            ;
        }
        round_pack(sa * p + sb, eb)
    } else {
        let d = (eb - ea) as u64;
        if d >= 27 {
            return b;
        }
        let p = pow2_u64(d);
        proof {
            lemma_two_pow_values();
            lemma_two_pow_mono(d as int, 26);
            assert((sb as int) * (p as int) < 0x4_0000_0000_0000) by (nonlinear_arith)
                requires
                    sb < 0x0100_0000,
                    p as int <= 0x0400_0000,
                    p >= 1,
            ;
            assert((sb as int) * (p as int) >= 1) by (nonlinear_arith)
                requires
                    sb >= 1,
                    p >= 1,
            ;
        }
        round_pack(sb * p + sa, ea)
    }
}

/// Difference of two sign-clear patterns, bit-exact binary32; the result
/// carries a sign bit when `a < b`.
pub fn sub_bits(a: u32, b: u32) -> (r: u32)
    requires
        a < 0x8000_0000,
        b < 0x8000_0000,
    ensures
        r == sub_spec(a, b),
{
    if a > 0x7F80_0000 || b > 0x7F80_0000 {
        return QNAN_BITS;
    }
    if a == 0x7F80_0000 {
        return if b == 0x7F80_0000 {
            QNAN_BITS
        } else {
            INF_BITS
        };
    }
    if b == 0x7F80_0000 {
        return 0xFF80_0000u32;
    }
    if a == b {
        return 0;
    }
    if b == 0 {
        return a;
    }
    if a == 0 {
        return SIGN_BITS + b;
    }
    let (sa, ea) = unpack_bits(a);
    let (sb, eb) = unpack_bits(b);
    if ea >= eb {
        let d = (ea - eb) as u64;
        if d >= 27 {
            return a;
        }
        let p = pow2_u64(d);
        proof {
            lemma_two_pow_values();
            lemma_two_pow_mono(d as int, 26);
            assert((sa as int) * (p as int) < 0x4_0000_0000_0000) by (nonlinear_arith)
                requires
                    sa < 0x0100_0000,
                    p as int <= 0x0400_0000,
                    p >= 1,
            ;
            if d >= 1 {
                // a is normal here, so the aligned significand clears b's
                assert(ea >= 2);
                assert(a / 0x0080_0000 >= 2);
                assert(sa >= 0x0080_0000);
                assert((sa as int) * (p as int) >= 0x0100_0000) by (nonlinear_arith)
                    requires
                        sa >= 0x0080_0000,
                        p >= 2,
                ;
            } else {
                assert(two_pow(0) == 1);
                assert(p == 1);
                assert((sa as int) * (p as int) == sa as int) by (nonlinear_arith)
                    requires
                        p == 1,
                ;
                if sa == sb {
                    // identical significand and scale means identical bits
                    vstd::arithmetic::div_mod::lemma_fundamental_div_mod(a as int, 0x0080_0000);
                    vstd::arithmetic::div_mod::lemma_fundamental_div_mod(b as int, 0x0080_0000);
                    assert(false);
                }
            }
        }
        let hi = sa * p;
        if hi >= sb {
            round_pack(hi - sb, eb)
        } else {
            let m = round_pack(sb - hi, eb);
            SIGN_BITS + m
        }
    } else {
        let d = (eb - ea) as u64;
        if d >= 27 {
            return SIGN_BITS + b;
        }
        let p = pow2_u64(d);
        proof {
            lemma_two_pow_values();
            lemma_two_pow_mono(d as int, 26);
            assert((sb as int) * (p as int) < 0x4_0000_0000_0000) by (nonlinear_arith)
                requires
                    sb < 0x0100_0000,
                    p as int <= 0x0400_0000,
                    p >= 1,
            ;
            assert(eb >= 2);
            assert(b / 0x0080_0000 >= 2);
            assert(sb >= 0x0080_0000);
            assert((sb as int) * (p as int) >= 0x0100_0000) by (nonlinear_arith)
                requires
                    sb >= 0x0080_0000,
                    p >= 2,
            ;
        }
        let m = round_pack(sb * p - sa, ea);
        SIGN_BITS + m
    }
}

/// The pattern a 32-bit unsigned integer converts to, bit-exact binary32.
pub fn cvt_bits(n: u32) -> (r: u32)
    requires
        true,
    ensures
        r == cvt_spec(n),
        r < 0x8000_0000,
{
    if n == 0 {
        return 0;
    }
    proof {
        lemma_two_pow_values();
    }
    round_pack(n as u64, 150)
}

/// Whether a pattern compares strictly below zero.
pub fn is_neg(b: u32) -> (r: bool)
    ensures
        r == is_neg_spec(b),
{
    b > 0x8000_0000 && b - 0x8000_0000 <= 0x7F80_0000
}

} // verus!
