//! Laws that relate the bit queries to one another, stated over the values
//! that `BitOps` contracts speak of.

use crate::model::{
    bit_at, bit_field, is_power_of_two, lemma_bit_of_negative_power_of_two,
    lemma_bit_of_power_of_two, lemma_high_bits, shares_set_bit,
};
use crate::ops::BitOps;
use vstd::arithmetic::power2::{lemma2_to64, lemma_pow2_pos, lemma_pow2_strictly_increases, pow2};
use vstd::prelude::*;

verus! {

/// Zero is no flag, and no value with two or more bits set is a flag.
pub proof fn law_flag_has_one_bit<T: BitOps>(v: T, i: nat, j: nat)
    requires
        v.value() == 0 || (i != j && bit_at(v.value(), i) && bit_at(v.value(), j)),
    ensures
        !is_power_of_two(v.value()),
{
    if is_power_of_two(v.value()) {
        let k = choose|k: nat| v.value() == pow2(k);
        lemma_pow2_pos(k);
        lemma_bit_of_power_of_two(k, i);
        lemma_bit_of_power_of_two(k, j);
    }
}

/// A flag is `1 << k` for a `k` inside the type's width.
pub proof fn law_flag_is_shifted_one<T: BitOps>(v: T)
    requires
        is_power_of_two(v.value()),
    ensures
        exists|k: nat| k < T::width() && v.value() == pow2(k),
{
    v.lemma_value_range();
    let k = choose|k: nat| v.value() == pow2(k);
    let w = T::width();
    if k >= w {
        if k > w {
            lemma_pow2_strictly_increases(w, k);
        }
        lemma_pow2_strictly_increases((w - 1) as nat, w);
    }
    assert(k < w && v.value() == pow2(k));
}

/// Asking for bit `i` is asking whether the single-bit mask `1 << i` is set.
/// That mask is two to the `i`, except at the top bit of a signed type,
/// where it is the least value, minus two to the `i`.
pub proof fn law_bit_set_is_flag_set<T: BitOps>(v: T, i: u8, mask: T)
    requires
        i < T::width(),
        mask.value() == if T::is_signed() && i + 1 == T::width() {
            -(pow2(i as nat) as int)
        } else {
            pow2(i as nat) as int
        },
    ensures
        bit_at(v.value(), i as nat) == shares_set_bit(v.value(), mask.value()),
{
    v.lemma_value_range();
    let k = i as nat;
    if T::is_signed() && i + 1 == T::width() {
        lemma_bit_of_negative_power_of_two(k, k);
        lemma_high_bits(v.value(), k, k);
        if bit_at(v.value(), k) {
            assert(bit_at(v.value(), k) && bit_at(mask.value(), k));
        }
        if shares_set_bit(v.value(), mask.value()) {
            let j = choose|j: nat| #[trigger] bit_at(v.value(), j) && bit_at(mask.value(), j);
            lemma_bit_of_negative_power_of_two(k, j);
            lemma_high_bits(v.value(), k, j);
        }
    } else {
        if bit_at(v.value(), k) {
            lemma_bit_of_power_of_two(k, k);
            assert(bit_at(v.value(), k) && bit_at(mask.value(), k));
        }
        if shares_set_bit(v.value(), mask.value()) {
            let j = choose|j: nat| #[trigger] bit_at(v.value(), j) && bit_at(mask.value(), j);
            lemma_bit_of_power_of_two(k, j);
        }
    }
}

/// No value has a set bit in common with zero.
pub proof fn law_zero_mask_is_never_set<T: BitOps>(v: T, zero: T)
    requires
        zero.value() == 0,
    ensures
        !shares_set_bit(v.value(), zero.value()),
{
    if shares_set_bit(v.value(), 0) {
        let j = choose|j: nat| #[trigger] bit_at(v.value(), j) && bit_at(0, j);
        lemma_pow2_pos(j);
        assert(0int / (pow2(j) as int) == 0);
    }
}

/// Two values share a set bit exactly when they share one inside the type's
/// width.
pub proof fn law_shared_bit_within_width<T: BitOps>(v: T, mask: T)
    ensures
        shares_set_bit(v.value(), mask.value()) == exists|i: nat|
            i < T::width() && #[trigger] bit_at(v.value(), i) && bit_at(mask.value(), i),
{
    v.lemma_value_range();
    mask.lemma_value_range();
    let w = T::width();
    if shares_set_bit(v.value(), mask.value()) {
        let j = choose|j: nat| #[trigger] bit_at(v.value(), j) && bit_at(mask.value(), j);
        if j >= w {
            if T::is_signed() {
                let t = (w - 1) as nat;
                lemma_high_bits(v.value(), t, j);
                lemma_high_bits(mask.value(), t, j);
                lemma_high_bits(v.value(), t, t);
                lemma_high_bits(mask.value(), t, t);
                assert(t < w && bit_at(v.value(), t) && bit_at(mask.value(), t));
            } else {
                lemma_high_bits(v.value(), w, j);
            }
        } else {
            assert(j < w && bit_at(v.value(), j) && bit_at(mask.value(), j));
        }
    }
}

/// All the bits from bit zero are the value itself.
pub proof fn law_whole_field_is_value<T: BitOps>(v: T)
    ensures
        bit_field(v.value(), 0, T::width(), T::width()) == v.value(),
{
    lemma2_to64();
}

/// No bits at all read as zero, wherever they start.
pub proof fn law_empty_field_is_zero<T: BitOps>(v: T, start: nat)
    ensures
        bit_field(v.value(), start, 0, T::width()) == 0,
{
    v.lemma_value_range();
    lemma2_to64();
}

} // verus!
