//! Binary64 floating-point numbers, held as their IEEE-754 bit patterns:
//! their equality, and rounding a positive fraction to the nearest one.
use vstd::arithmetic::power2::{lemma2_to64, lemma2_to64_rest, lemma_pow2_adds, lemma_pow2_pos,
    lemma_pow2_strictly_increases, lemma_pow2_unfold, pow2};
use vstd::prelude::*;

verus! {

/// The exponent field of a binary64 bit pattern.
pub open spec fn float_exponent_field(bits: u64) -> u64 {
    (bits >> 52u64) & 0x7ffu64
}

/// The fraction field of a binary64 bit pattern.
pub open spec fn float_fraction_field(bits: u64) -> u64 {
    bits & 0xf_ffff_ffff_ffffu64
}

/// The bit pattern is a NaN: all exponent bits set and a non-zero fraction.
pub open spec fn float_is_nan(bits: u64) -> bool {
    float_exponent_field(bits) == 0x7ffu64 && float_fraction_field(bits) != 0
}

/// The bit pattern is +0.0 or -0.0.
pub open spec fn float_is_zero(bits: u64) -> bool {
    bits & 0x7fff_ffff_ffff_ffffu64 == 0
}

/// IEEE-754 equality of two binary64 numbers given by their bit patterns:
/// a NaN equals nothing, the two zeros are equal, and otherwise two numbers
/// are equal exactly when their bit patterns are.
pub open spec fn float_bits_equal(a: u64, b: u64) -> bool {
    &&& !float_is_nan(a)
    &&& !float_is_nan(b)
    &&& (a == b || (float_is_zero(a) && float_is_zero(b)))
}

/// A number that is neither a NaN nor a zero equals exactly itself: two
/// different bit patterns of such numbers are different numbers.
pub proof fn lemma_float_equal_only_itself(a: u64, b: u64)
    requires
        !float_is_nan(a),
        !float_is_zero(a),
    ensures
        float_bits_equal(a, b) == (a == b),
{
}

/// Compares two binary64 numbers, given by their bit patterns, as `==` on
/// `f64` does.
pub fn float_bits_eq(a: u64, b: u64) -> (res: bool)
    ensures
        res == float_bits_equal(a, b),
{
    let a_nan = (a >> 52u64) & 0x7ffu64 == 0x7ffu64 && a & 0xf_ffff_ffff_ffffu64 != 0;
    let b_nan = (b >> 52u64) & 0x7ffu64 == 0x7ffu64 && b & 0xf_ffff_ffff_ffffu64 != 0;
    let both_zero = a & 0x7fff_ffff_ffff_ffffu64 == 0 && b & 0x7fff_ffff_ffff_ffffu64 == 0;
    !a_nan && !b_nan && (a == b || both_zero)
}

/// `2^52`: the smallest significand of a normal binary64 number.
pub const SIGNIFICAND_MIN: u128 = 0x10_0000_0000_0000;

/// `2^53`: one past the largest significand of a normal binary64 number.
pub const SIGNIFICAND_END: u128 = 0x20_0000_0000_0000;

/// The numerator of `num / den` after dividing the fraction by `2^e`.
pub open spec fn scaled_num(num: nat, e: int) -> nat {
    if e < 0 {
        num * pow2((-e) as nat)
    } else {
        num
    }
}

/// The denominator of `num / den` after dividing the fraction by `2^e`.
pub open spec fn scaled_den(den: nat, e: int) -> nat {
    if e > 0 {
        den * pow2(e as nat)
    } else {
        den
    }
}

/// `2^52 <= (num / den) / 2^e < 2^53`: binary64 numbers with exponent `e`
/// (values `q * 2^e` with a 53-bit significand `q`) cover `num / den`.
pub open spec fn in_binade(num: nat, den: nat, e: int) -> bool {
    &&& SIGNIFICAND_MIN * scaled_den(den, e) <= scaled_num(num, e)
    &&& scaled_num(num, e) < SIGNIFICAND_END * scaled_den(den, e)
}

/// The exponent `e` with `in_binade(num, den, e)` (for `num, den > 0` there
/// is exactly one).
pub open spec fn binade(num: nat, den: nat) -> int {
    choose|e: int| #[trigger] in_binade(num, den, e)
}

/// `n / d` rounded to the nearest integer, ties to the even one.
pub open spec fn round_half_even(n: nat, d: nat) -> nat {
    let q = n / d;
    let r = n % d;
    if 2 * r > d || (2 * r == d && q % 2 == 1) {
        q + 1
    } else {
        q
    }
}

/// The bit pattern of the binary64 number nearest to `num / den` (ties to
/// the even significand), for a fraction `num / den > 0` in the range of
/// normal numbers: with `e = binade(num, den)`, the significand is
/// `num / den / 2^e` rounded, and the biased exponent is `e + 1075`.
pub open spec fn nearest_binary64(num: nat, den: nat) -> nat {
    let e = binade(num, den);
    let q = round_half_even(scaled_num(num, e), scaled_den(den, e));
    if q == SIGNIFICAND_END {
        ((e + 1 + 1075) * SIGNIFICAND_MIN) as nat
    } else {
        ((e + 1075) * SIGNIFICAND_MIN + (q - SIGNIFICAND_MIN)) as nat
    }
}

/// Dividing the fraction by `2^(e + 1)` instead of `2^e` halves the numerator
/// or doubles the denominator.
proof fn lemma_scale_step(num: nat, den: nat, e: int)
    ensures
        e < 0 ==> scaled_num(num, e) == 2 * scaled_num(num, e + 1) && scaled_den(den, e + 1)
            == scaled_den(den, e),
        e >= 0 ==> scaled_num(num, e + 1) == scaled_num(num, e) && scaled_den(den, e + 1) == 2
            * scaled_den(den, e),
{
    lemma2_to64();
    if e < 0 {
        let k = (-e) as nat;
        lemma_pow2_unfold(k);
        let p = pow2((k - 1) as nat);
        assert(num * (2 * p) == 2 * (num * p)) by (nonlinear_arith);
        if e + 1 == 0 {
            assert(num * 1 == num);
        }
    } else {
        let k = (e + 1) as nat;
        lemma_pow2_unfold(k);
        let p = pow2((k - 1) as nat);
        assert(den * (2 * p) == 2 * (den * p)) by (nonlinear_arith);
        if e == 0 {
            assert(den * 1 == den);
        }
    }
}

/// Above the binade of `num / den` the fraction is too small for a 53-bit
/// significand.
proof fn lemma_above_binade(num: nat, den: nat, e: int, e2: int)
    requires
        scaled_num(num, e) < SIGNIFICAND_END * scaled_den(den, e),
        e < e2,
    ensures
        scaled_num(num, e2) < SIGNIFICAND_MIN * scaled_den(den, e2),
    decreases e2 - e,
{
    lemma_scale_step(num, den, e);
    if e + 1 < e2 {
        lemma_above_binade(num, den, e + 1, e2);
    }
}

/// Below the binade of `num / den` the fraction is too large for a 53-bit
/// significand.
proof fn lemma_below_binade(num: nat, den: nat, e: int, e2: int)
    requires
        SIGNIFICAND_MIN * scaled_den(den, e) <= scaled_num(num, e),
        e2 < e,
    ensures
        SIGNIFICAND_END * scaled_den(den, e2) <= scaled_num(num, e2),
    decreases e - e2,
{
    lemma_scale_step(num, den, e - 1);
    if e2 < e - 1 {
        lemma_below_binade(num, den, e - 1, e2);
    }
}

/// The binade is unique.
pub proof fn lemma_binade_unique(num: nat, den: nat, e: int)
    requires
        in_binade(num, den, e),
    ensures
        binade(num, den) == e,
{
    let b = binade(num, den);
    assert(in_binade(num, den, b));
    if b > e {
        lemma_above_binade(num, den, e, b);
    } else if b < e {
        lemma_below_binade(num, den, e, b);
    }
}

/// The bit pattern of the binary64 number nearest to `num / den`.
pub fn nearest_binary64_bits(num: u64, den: u64) -> (bits: u64)
    requires
        num > 0,
        den > 0,
    ensures
        bits == nearest_binary64(num as nat, den as nat),
        bits < 0x8000_0000_0000_0000u64,
{
    proof {
        lemma2_to64();
        lemma2_to64_rest();
    }
    let mut a: u128 = num as u128;
    let mut b: u128 = den as u128;
    let mut e: i64 = 0;
    if a < SIGNIFICAND_MIN * b {
        while a < SIGNIFICAND_MIN * b
            invariant
                b == den,
                e <= 0,
                a == scaled_num(num as nat, e as int),
                a < SIGNIFICAND_END * b,
                a >= pow2((-e) as nat),
                -e < 118,
            decreases 118 + e,
        {
            proof {
                lemma_scale_step(num as nat, den as nat, e - 1);
                lemma_pow2_unfold((-(e - 1)) as nat);
                lemma2_to64();
                lemma2_to64_rest();
                assert(a < SIGNIFICAND_MIN * b);
                assert(SIGNIFICAND_MIN == 0x10_0000_0000_0000u128);
                assert(b <= 0xffff_ffff_ffff_ffffu128);
                assert(2 * a < 0x20_0000_0000_0000_0000_0000_0000_0000u128);
                if -(e - 1) >= 118 {
                    lemma_pow2_adds(64, 53);
                    let n = (-(e - 1)) as nat;
                    lemma_pow2_strictly_increases(117, n);
                    assert(pow2(117) == pow2(64) * pow2(53));
                    assert(pow2(64) * pow2(53) == 0x20_0000_0000_0000_0000_0000_0000_0000) by (nonlinear_arith)
                        requires
                            pow2(64) == 0x1_0000_0000_0000_0000,
                            pow2(53) == 0x20_0000_0000_0000,
                    ;
                    assert(false);
                }
            }
            a = a * 2;
            e = e - 1;
        }
    } else {
        while a >= SIGNIFICAND_END * b
            invariant
                a == num,
                e >= 0,
                b == scaled_den(den as nat, e as int),
                SIGNIFICAND_MIN * b <= a,
                b >= pow2(e as nat),
                e < 12,
            decreases 12 - e,
        {
            proof {
                lemma_scale_step(num as nat, den as nat, e as int);
                lemma_pow2_unfold((e + 1) as nat);
                lemma2_to64();
                assert(2 * b * SIGNIFICAND_MIN <= a);
                assert(a < 0x1_0000_0000_0000_0000u128);
                if e + 1 >= 12 {
                    if e + 1 > 12 {
                        lemma_pow2_strictly_increases(12, (e + 1) as nat);
                    }
                    assert(pow2(12) == 4096);
                    assert(false);
                }
                lemma_pow2_pos(e as nat);
            }
            b = b * 2;
            e = e + 1;
        }
    }
    proof {
        lemma_binade_unique(num as nat, den as nat, e as int);
    }
    let q0 = a / b;
    let r = a % b;
    proof {
        vstd::arithmetic::div_mod::lemma_fundamental_div_mod(a as int, b as int);
        assert(a == b * q0 + r);
        assert(SIGNIFICAND_MIN <= q0 < SIGNIFICAND_END) by (nonlinear_arith)
            requires
                a == b * q0 + r,
                0 <= r < b,
                SIGNIFICAND_MIN * b <= a < SIGNIFICAND_END * b,
        ;
    }
    let q: u128 = if 2 * r > b || (2 * r == b && q0 % 2 == 1) {
        q0 + 1
    } else {
        q0
    };
    let biased: u64 = (e + 1075) as u64;
    if q == SIGNIFICAND_END {
        (biased + 1) * (SIGNIFICAND_MIN as u64)
    } else {
        biased * (SIGNIFICAND_MIN as u64) + (q as u64 - SIGNIFICAND_MIN as u64)
    }
}

} // verus!
