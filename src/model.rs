//! The mathematical meaning of the bit queries, over unbounded integers.
//!
//! A value is read in two's complement with its sign bit repeated without end,
//! so that every integer, negative ones included, has a bit at every position.

use vstd::arithmetic::div_mod::*;
use vstd::arithmetic::power2::*;
use vstd::prelude::*;

verus! {

/// Bit `i` of `v`, counted from the least significant bit.
pub open spec fn bit_at(v: int, i: nat) -> bool {
    (v / (pow2(i) as int)) % 2 == 1
}

/// `v` is two to the power of some exponent.
pub open spec fn is_power_of_two(v: int) -> bool {
    exists|k: nat| v == pow2(k)
}

/// Some bit position is set in both `a` and `b`.
pub open spec fn shares_set_bit(a: int, b: int) -> bool {
    exists|i: nat| #[trigger] bit_at(a, i) && bit_at(b, i)
}

/// The `count` bits of `v` from bit `start` upwards, read as a number. When
/// `count` covers the whole `width`, nothing is masked off and this is `v`
/// shifted right by `start`.
pub open spec fn bit_field(v: int, start: nat, count: nat, width: nat) -> int {
    if count < width {
        (v / (pow2(start) as int)) % (pow2(count) as int)
    } else {
        v / (pow2(start) as int)
    }
}

/// Dividing by two to the `i + 1` is halving, then dividing by two to the `i`.
pub proof fn lemma_div_pow2_succ(v: int, i: nat)
    ensures
        v / (pow2(i + 1) as int) == (v / 2) / (pow2(i) as int),
{
    lemma_pow2_pos(i);
    lemma_pow2_unfold(i + 1);
    if v >= 0 {
        lemma_div_denominator(v, 2, pow2(i) as int);
    } else {
        let n = -v - 1;
        lemma_div_denominator(n, 2, pow2(i) as int);
        lemma_div_of_complement(n, 2);
        lemma_div_of_complement(n, pow2(i + 1) as int);
        lemma_div_of_complement(n / 2, pow2(i) as int);
    }
}

/// For `n >= 0`, `(-n - 1) / d == -(n / d) - 1`, as division rounds down, and
/// the remainders of `-n - 1` and `n` add up to `d - 1`.
pub proof fn lemma_div_of_complement(n: int, d: int)
    requires
        n >= 0,
        d > 0,
    ensures
        (-n - 1) / d == -(n / d) - 1,
        (-n - 1) % d == d - 1 - n % d,
{
    lemma_fundamental_div_mod(n, d);
    let q = n / d;
    let r = n % d;
    assert(-n - 1 == (-q - 1) * d + (d - 1 - r)) by (nonlinear_arith)
        requires
            n == d * q + r,
    ;
    lemma_fundamental_div_mod_converse(-n - 1, d, -q - 1, d - 1 - r);
}

/// Every bit of a negative value is the opposite of that bit of `-v - 1`.
pub proof fn lemma_bit_of_negative(v: int, i: nat)
    requires
        v < 0,
    ensures
        bit_at(v, i) == !bit_at(-v - 1, i),
{
    lemma_pow2_pos(i);
    let n = -v - 1;
    lemma_div_of_complement(n, pow2(i) as int);
    let q = n / (pow2(i) as int);
    assert((-q - 1) % 2 == 1 <==> q % 2 == 0);
}

/// A value in `[0, 2^w)` has no set bit at or above `w`; a value in
/// `[-2^w, 0)` has every bit set there.
pub proof fn lemma_high_bits(v: int, w: nat, i: nat)
    requires
        -(pow2(w) as int) <= v < pow2(w),
        w <= i,
    ensures
        bit_at(v, i) == (v < 0),
{
    lemma_pow2_pos(i);
    if w < i {
        lemma_pow2_strictly_increases(w, i);
    }
    if v >= 0 {
        lemma_fundamental_div_mod_converse(v, pow2(i) as int, 0, v);
    } else {
        let n = -v - 1;
        lemma_div_of_complement(n, pow2(i) as int);
        lemma_fundamental_div_mod_converse(n, pow2(i) as int, 0, n);
    }
}

/// A positive value has a set bit below `w` when it is below two to the `w`.
pub proof fn lemma_positive_has_set_bit(v: int, w: nat) -> (i: nat)
    requires
        0 < v < pow2(w),
    ensures
        i < w,
        bit_at(v, i),
    decreases v,
{
    lemma2_to64();
    if v % 2 == 1 {
        0
    } else {
        lemma_pow2_unfold(w);
        let j = lemma_positive_has_set_bit(v / 2, (w - 1) as nat);
        lemma_div_pow2_succ(v, j);
        j + 1
    }
}

/// Two to the `k` has bit `k` set and no other.
pub proof fn lemma_bit_of_power_of_two(k: nat, i: nat)
    ensures
        bit_at(pow2(k) as int, i) == (i == k),
{
    lemma_pow2_pos(i);
    lemma2_to64();
    if i <= k {
        lemma_pow2_subtracts(i, k);
        let d = (k - i) as nat;
        if d > 0 {
            lemma_pow2_unfold(d);
        }
    } else {
        lemma_pow2_strictly_increases(k, i);
        lemma_fundamental_div_mod_converse(pow2(k) as int, pow2(i) as int, 0, pow2(k) as int);
    }
}

/// Minus two to the `k` has every bit from `k` upwards set and none below.
pub proof fn lemma_bit_of_negative_power_of_two(k: nat, j: nat)
    ensures
        bit_at(-(pow2(k) as int), j) == (j >= k),
{
    lemma_pow2_pos(k);
    lemma_pow2_pos(j);
    if j >= k {
        lemma_high_bits(-(pow2(k) as int), k, j);
    } else {
        let d = (k - j) as nat;
        lemma_pow2_adds(j, d);
        lemma_pow2_unfold(d);
        let h = pow2((d - 1) as nat) as int;
        assert(-(pow2(k) as int) == (-(pow2(d) as int)) * (pow2(j) as int) + 0) by (nonlinear_arith)
            requires
                pow2(k) == pow2(j) * pow2(d),
        ;
        lemma_fundamental_div_mod_converse(-(pow2(k) as int), pow2(j) as int, -(pow2(d) as int), 0);
        lemma_fundamental_div_mod_converse(-(pow2(d) as int), 2, -h, 0);
    }
}

} // verus!
