//! The queries on 64-bit words, to which every narrower type is widened.

use crate::model::{
    bit_at, bit_field, is_power_of_two, lemma_bit_of_negative,
    lemma_div_of_complement, lemma_high_bits, lemma_positive_has_set_bit, shares_set_bit,
};
use vstd::arithmetic::power2::*;
use vstd::bits::*;
use vstd::prelude::*;

verus! {

/// Shifting right by `i` is division by two to the `i`, and the low bit of
/// that is bit `i`.
proof fn lemma_bit_u64(x: u64, i: u64)
    requires
        i < 64,
    ensures
        ((x >> i) & 1 == 1) == bit_at(x as int, i as nat),
{
    lemma_u64_shr_is_div(x, i);
    let y = x >> i;
    assert(y & 1 == y % 2) by (bit_vector);
}

/// A nonzero word whose AND with one less than itself is zero is a power of
/// two, and so is every power of two that fits in a word.
proof fn lemma_single_bit(x: u64)
    ensures
        (x != 0 && x & ((x - 1) as u64) == 0) == is_power_of_two(x as int),
    decreases x,
{
    if x != 0 && x & ((x - 1) as u64) == 0 {
        if x == 1 {
            lemma2_to64();
            assert(x == pow2(0));
        } else {
            assert(x & 1 == 0 && (x >> 1) != 0 && (x >> 1) & (((x >> 1) - 1) as u64) == 0 && x == (x >> 1) * 2)
                by (bit_vector)
                requires
                    x != 0 && x != 1 && x & ((x - 1) as u64) == 0,
            ;
            let y = x >> 1;
            lemma_single_bit(y);
            let k = choose|k: nat| y as int == pow2(k);
            lemma_pow2_unfold(k + 1);
            assert(x as int == pow2(k + 1));
        }
    }
    if is_power_of_two(x as int) {
        let k = choose|k: nat| x as int == pow2(k);
        if k >= 64 {
            lemma2_to64_rest();
            lemma_pow2_strictly_increases(64, k);
            lemma_pow2_pos(64);
        }
        if k < 64 {
            let kk = k as u64;
            lemma_u64_pow2_no_overflow(k);
            lemma_u64_shl_is_mul(1, kk);
            assert((1u64 << kk) != 0 && (1u64 << kk) & (((1u64 << kk) - 1) as u64) == 0) by (bit_vector)
                requires
                    kk < 64,
            ;
        }
    }
}

/// Whether `x` is a power of two.
pub fn single_bit(x: u64) -> (r: bool)
    ensures
        r == is_power_of_two(x as int),
{
    proof {
        lemma_single_bit(x);
    }
    x != 0 && x & (x - 1) == 0
}

/// Whether bit `i` of `x` is set.
pub fn bit_of(x: u64, i: u8) -> (r: bool)
    requires
        i < 64,
    ensures
        r == bit_at(x as int, i as nat),
{
    proof {
        lemma_bit_u64(x, i as u64);
    }
    (x >> (i as u64)) & 1 == 1
}

/// Bit `i` of an AND is set exactly when it is set in both words.
proof fn lemma_bit_of_and(x: u64, y: u64, i: nat)
    requires
        i < 64,
    ensures
        bit_at((x & y) as int, i) == (bit_at(x as int, i) && bit_at(y as int, i)),
{
    let k = i as u64;
    lemma_bit_u64(x & y, k);
    lemma_bit_u64(x, k);
    lemma_bit_u64(y, k);
    assert((((x & y) >> k) & 1 == 1) == (((x >> k) & 1 == 1) && ((y >> k) & 1 == 1)))
        by (bit_vector);
}

/// Whether some bit is set in both `x` and `y`.
pub fn bits_overlap(x: u64, y: u64) -> (r: bool)
    ensures
        r == shares_set_bit(x as int, y as int),
{
    let z = x & y;
    proof {
        lemma2_to64_rest();
        if z != 0 {
            let i = lemma_positive_has_set_bit(z as int, 64);
            lemma_bit_of_and(x, y, i);
            assert(bit_at(x as int, i) && bit_at(y as int, i));
        }
        if shares_set_bit(x as int, y as int) {
            let i = choose|i: nat| #[trigger] bit_at(x as int, i) && bit_at(y as int, i);
            if i >= 64 {
                lemma_high_bits(x as int, 64, i);
            } else {
                lemma_bit_of_and(x, y, i);
                if z == 0 {
                    lemma_pow2_pos(i);
                    assert(0int / (pow2(i) as int) == 0);
                }
            }
        }
    }
    z != 0
}

/// The `c` bits of `x` from bit `s` upwards; all of `x` shifted right by `s`
/// when `c` is the whole word.
pub fn field_of(x: u64, s: u8, c: u8) -> (r: u64)
    requires
        s < 64,
        c <= 64,
    ensures
        r as int == if c < 64 {
            (x as int / (pow2(s as nat) as int)) % (pow2(c as nat) as int)
        } else {
            x as int / (pow2(s as nat) as int)
        },
{
    let shifted = x >> (s as u64);
    proof {
        lemma_u64_shr_is_div(x, s as u64);
    }
    if c < 64 {
        proof {
            lemma_u64_pow2_no_overflow(c as nat);
            lemma_u64_shl_is_mul(1, c as u64);
            lemma_u64_low_bits_mask_is_mod(shifted, c as nat);
        }
        let mask = (1u64 << (c as u64)) - 1;
        shifted & mask
    } else {
        shifted
    }
}

/// The field of a word below two to the `w`, read as a `w`-bit unsigned value.
pub fn unsigned_field_of(x: u64, s: u8, c: u8, w: u8) -> (r: u64)
    requires
        s < w <= 64,
        c <= w,
        x < pow2(w as nat),
    ensures
        r as int == bit_field(x as int, s as nat, c as nat, w as nat),
        r < pow2(w as nat),
{
    proof {
        lemma_pow2_pos(s as nat);
        lemma_pow2_pos(c as nat);
        if c < w {
            lemma_pow2_strictly_increases(c as nat, w as nat);
        }
        assert(x as int / (pow2(s as nat) as int) <= x) by (nonlinear_arith)
            requires
                pow2(s as nat) > 0,
                x >= 0,
        ;
    }
    if c < w {
        field_of(x, s, c)
    } else {
        field_of(x, s, 64)
    }
}

/// Whether `v` is a power of two.
pub fn signed_single_bit(v: i64) -> (r: bool)
    ensures
        r == is_power_of_two(v as int),
{
    if v > 0 {
        single_bit(v as u64)
    } else {
        proof {
            if is_power_of_two(v as int) {
                let k = choose|k: nat| v as int == pow2(k);
                lemma_pow2_pos(k);
            }
        }
        false
    }
}

/// Whether bit `i` of `v` is set.
pub fn signed_bit_of(v: i64, i: u8) -> (r: bool)
    requires
        i < 64,
    ensures
        r == bit_at(v as int, i as nat),
{
    if v >= 0 {
        bit_of(v as u64, i)
    } else {
        proof {
            lemma_bit_of_negative(v as int, i as nat);
        }
        !bit_of((-1 - v) as u64, i)
    }
}

/// Below bit 64 the complement of a word has the bits of the negative value
/// `-n - 1`.
proof fn lemma_bit_of_not(n: u64, i: nat)
    requires
        i < 64,
    ensures
        bit_at((!n) as int, i) == bit_at(-(n as int) - 1, i),
{
    let k = i as u64;
    lemma_bit_u64(!n, k);
    lemma_bit_u64(n, k);
    lemma_bit_of_negative(-(n as int) - 1, i);
    assert((((!n) >> k) & 1 == 1) == !((n >> k) & 1 == 1)) by (bit_vector)
        requires
            k < 64,
    ;
}

/// Whether `a`, which is not negative, and `b`, which is, share a set bit.
fn overlaps_negative(a: i64, b: i64) -> (r: bool)
    requires
        a >= 0,
        b < 0,
    ensures
        r == shares_set_bit(a as int, b as int),
{
    let n = (-1 - b) as u64;
    let c = !n;
    proof {
        lemma2_to64_rest();
        if shares_set_bit(a as int, b as int) {
            let i = choose|i: nat| #[trigger] bit_at(a as int, i) && bit_at(b as int, i);
            if i >= 64 {
                lemma_high_bits(a as int, 64, i);
            } else {
                lemma_bit_of_not(n, i);
                assert(bit_at(a as int, i) && bit_at(c as int, i));
            }
        }
        if shares_set_bit(a as int, c as int) {
            let i = choose|i: nat| #[trigger] bit_at(a as int, i) && bit_at(c as int, i);
            if i >= 64 {
                lemma_high_bits(a as int, 64, i);
            } else {
                lemma_bit_of_not(n, i);
                assert(bit_at(a as int, i) && bit_at(b as int, i));
            }
        }
    }
    bits_overlap(a as u64, c)
}

/// Whether some bit is set in both `a` and `b`; two negative values always
/// share their sign bit.
pub fn signed_bits_overlap(a: i64, b: i64) -> (r: bool)
    ensures
        r == shares_set_bit(a as int, b as int),
{
    if a >= 0 && b >= 0 {
        bits_overlap(a as u64, b as u64)
    } else if a >= 0 {
        overlaps_negative(a, b)
    } else if b >= 0 {
        let r = overlaps_negative(b, a);
        proof {
            if shares_set_bit(a as int, b as int) {
                let i = choose|i: nat| #[trigger] bit_at(a as int, i) && bit_at(b as int, i);
                assert(bit_at(b as int, i) && bit_at(a as int, i));
            }
            if shares_set_bit(b as int, a as int) {
                let i = choose|i: nat| #[trigger] bit_at(b as int, i) && bit_at(a as int, i);
                assert(bit_at(a as int, i) && bit_at(b as int, i));
            }
        }
        r
    } else {
        proof {
            lemma2_to64_rest();
            lemma_high_bits(a as int, 63, 63);
            lemma_high_bits(b as int, 63, 63);
            assert(bit_at(a as int, 63) && bit_at(b as int, 63));
        }
        true
    }
}

/// The field of `v`, a `w`-bit signed value, read as a `w`-bit signed value.
pub fn signed_field_of(v: i64, s: u8, c: u8, w: u8) -> (r: i64)
    requires
        s < w <= 64,
        c <= w,
        -(pow2((w - 1) as nat) as int) <= v < pow2((w - 1) as nat),
    ensures
        r as int == bit_field(v as int, s as nat, c as nat, w as nat),
        -(pow2((w - 1) as nat) as int) <= r < pow2((w - 1) as nat),
{
    let ghost p = pow2(s as nat) as int;
    proof {
        lemma2_to64();
        lemma2_to64_rest();
        lemma_pow2_pos(s as nat);
        lemma_pow2_pos(c as nat);
        if c < w {
            if c < w - 1 {
                lemma_pow2_strictly_increases(c as nat, (w - 1) as nat);
            }
        }
        if w < 64 {
            lemma_pow2_strictly_increases((w - 1) as nat, 63);
        }
    }
    if v >= 0 {
        let x = v as u64;
        proof {
            assert(x as int / p <= x) by (nonlinear_arith)
                requires
                    p > 0,
                    x >= 0,
            ;
        }
        if c < w {
            field_of(x, s, c) as i64
        } else {
            field_of(x, s, 64) as i64
        }
    } else {
        let n = (-1 - v) as u64;
        proof {
            lemma_div_of_complement(n as int, p);
            assert(n as int / p <= n) by (nonlinear_arith)
                requires
                    p > 0,
                    n >= 0,
            ;
        }
        if c < w {
            let low = field_of(n, s, c);
            proof {
                lemma_u64_pow2_no_overflow(c as nat);
                lemma_u64_shl_is_mul(1, c as u64);
                lemma_div_of_complement(n as int / p, pow2(c as nat) as int);
            }
            let mask = (1u64 << (c as u64)) - 1;
            (mask - low) as i64
        } else {
            -1 - (field_of(n, s, 64) as i64)
        }
    }
}

} // verus!
