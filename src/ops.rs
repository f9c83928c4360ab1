//! The bit queries as a trait, implemented for the primitive integer types.

use crate::model::{bit_at, bit_field, is_power_of_two, shares_set_bit};
use crate::word::{
    bit_of, bits_overlap, signed_bits_overlap, signed_bit_of, signed_field_of,
    signed_single_bit, single_bit, unsigned_field_of,
};
use vstd::arithmetic::power2::{lemma2_to64, lemma2_to64_rest, pow2};
use vstd::pervasive::runtime_assert;
use vstd::prelude::*;

verus! {

/// Bit-level queries on an integer type.
///
/// The contracts speak of `value`, the mathematical integer a value stands
/// for, read in two's complement (see `crate::model`), and of `width`, the
/// number of bits in the type.
pub trait BitOps: Sized + Copy {
    /// The number of bits in the type.
    spec fn width() -> nat;

    /// The integer this value stands for.
    spec fn value(&self) -> int;

    /// Whether the type is signed, its values in two's complement.
    spec fn is_signed() -> bool;

    /// A type has between one and 64 bits. A signed one holds the values from
    /// `-2^(width - 1)` to below `2^(width - 1)`, an unsigned one those from
    /// zero to below `2^width`.
    proof fn lemma_value_range(&self)
        ensures
            0 < Self::width() <= 64,
            if Self::is_signed() {
                -(pow2((Self::width() - 1) as nat) as int) <= self.value() < pow2(
                    (Self::width() - 1) as nat,
                )
            } else {
                0 <= self.value() < pow2(Self::width())
            },
    ;

    /// Whether exactly one bit is set and the value is above zero: whether it
    /// is a power of two.
    fn is_flag(&self) -> (r: bool)
        ensures
            r == is_power_of_two(self.value()),
    ;

    /// Whether bit `bit` is set. A position outside the type stops the
    /// program.
    fn is_bit_set(&self, bit: u8) -> (r: bool)
        requires
            bit < Self::width(),
        ensures
            r == bit_at(self.value(), bit as nat),
    ;

    /// Whether this value and `flag` share a set bit: whether their AND is not
    /// zero. A `flag` of zero is never set.
    fn is_flag_set(&self, flag: Self) -> (r: bool)
        ensures
            r == shares_set_bit(self.value(), flag.value()),
    ;

    /// The `count` bits from bit `bit` upwards, as a value of the same type:
    /// this value shifted right by `bit` and masked with `(1 << count) - 1`,
    /// where a `count` of the whole width masks nothing off. A `bit` outside
    /// the type, or a `count` beyond its width, stops the program.
    fn bits_as_int(&self, bit: u8, count: u8) -> (r: Self)
        requires
            bit < Self::width(),
            count <= Self::width(),
        ensures
            r.value() == bit_field(self.value(), bit as nat, count as nat, Self::width()),
    ;
}

impl BitOps for u8 {
    open spec fn width() -> nat {
        8
    }

    open spec fn value(&self) -> int {
        *self as int
    }

    open spec fn is_signed() -> bool {
        false
    }

    proof fn lemma_value_range(&self) {
        lemma2_to64();
        lemma2_to64_rest();
    }

    fn is_flag(&self) -> (r: bool) {
        single_bit(*self as u64)
    }

    fn is_bit_set(&self, bit: u8) -> (r: bool) {
        runtime_assert(bit < 8);
        bit_of(*self as u64, bit)
    }

    fn is_flag_set(&self, flag: u8) -> (r: bool) {
        bits_overlap(*self as u64, flag as u64)
    }

    fn bits_as_int(&self, bit: u8, count: u8) -> (r: u8) {
        runtime_assert(bit < 8 && count <= 8);
        proof {
            lemma2_to64();
            lemma2_to64_rest();
        }
        unsigned_field_of(*self as u64, bit, count, 8) as u8
    }
}

impl BitOps for u16 {
    open spec fn width() -> nat {
        16
    }

    open spec fn value(&self) -> int {
        *self as int
    }

    open spec fn is_signed() -> bool {
        false
    }

    proof fn lemma_value_range(&self) {
        lemma2_to64();
        lemma2_to64_rest();
    }

    fn is_flag(&self) -> (r: bool) {
        single_bit(*self as u64)
    }

    fn is_bit_set(&self, bit: u8) -> (r: bool) {
        runtime_assert(bit < 16);
        bit_of(*self as u64, bit)
    }

    fn is_flag_set(&self, flag: u16) -> (r: bool) {
        bits_overlap(*self as u64, flag as u64)
    }

    fn bits_as_int(&self, bit: u8, count: u8) -> (r: u16) {
        runtime_assert(bit < 16 && count <= 16);
        proof {
            lemma2_to64();
            lemma2_to64_rest();
        }
        unsigned_field_of(*self as u64, bit, count, 16) as u16
    }
}

impl BitOps for u32 {
    open spec fn width() -> nat {
        32
    }

    open spec fn value(&self) -> int {
        *self as int
    }

    open spec fn is_signed() -> bool {
        false
    }

    proof fn lemma_value_range(&self) {
        lemma2_to64();
        lemma2_to64_rest();
    }

    fn is_flag(&self) -> (r: bool) {
        single_bit(*self as u64)
    }

    fn is_bit_set(&self, bit: u8) -> (r: bool) {
        runtime_assert(bit < 32);
        bit_of(*self as u64, bit)
    }

    fn is_flag_set(&self, flag: u32) -> (r: bool) {
        bits_overlap(*self as u64, flag as u64)
    }

    fn bits_as_int(&self, bit: u8, count: u8) -> (r: u32) {
        runtime_assert(bit < 32 && count <= 32);
        proof {
            lemma2_to64();
            lemma2_to64_rest();
        }
        unsigned_field_of(*self as u64, bit, count, 32) as u32
    }
}

impl BitOps for u64 {
    open spec fn width() -> nat {
        64
    }

    open spec fn value(&self) -> int {
        *self as int
    }

    open spec fn is_signed() -> bool {
        false
    }

    proof fn lemma_value_range(&self) {
        lemma2_to64();
        lemma2_to64_rest();
    }

    fn is_flag(&self) -> (r: bool) {
        single_bit(*self as u64)
    }

    fn is_bit_set(&self, bit: u8) -> (r: bool) {
        runtime_assert(bit < 64);
        bit_of(*self as u64, bit)
    }

    fn is_flag_set(&self, flag: u64) -> (r: bool) {
        bits_overlap(*self as u64, flag as u64)
    }

    fn bits_as_int(&self, bit: u8, count: u8) -> (r: u64) {
        runtime_assert(bit < 64 && count <= 64);
        proof {
            lemma2_to64();
            lemma2_to64_rest();
        }
        unsigned_field_of(*self as u64, bit, count, 64) as u64
    }
}

impl BitOps for i8 {
    open spec fn width() -> nat {
        8
    }

    open spec fn value(&self) -> int {
        *self as int
    }

    open spec fn is_signed() -> bool {
        true
    }

    proof fn lemma_value_range(&self) {
        lemma2_to64();
        lemma2_to64_rest();
    }

    fn is_flag(&self) -> (r: bool) {
        signed_single_bit(*self as i64)
    }

    fn is_bit_set(&self, bit: u8) -> (r: bool) {
        runtime_assert(bit < 8);
        signed_bit_of(*self as i64, bit)
    }

    fn is_flag_set(&self, flag: i8) -> (r: bool) {
        signed_bits_overlap(*self as i64, flag as i64)
    }

    fn bits_as_int(&self, bit: u8, count: u8) -> (r: i8) {
        runtime_assert(bit < 8 && count <= 8);
        proof {
            lemma2_to64();
            lemma2_to64_rest();
        }
        signed_field_of(*self as i64, bit, count, 8) as i8
    }
}

impl BitOps for i16 {
    open spec fn width() -> nat {
        16
    }

    open spec fn value(&self) -> int {
        *self as int
    }

    open spec fn is_signed() -> bool {
        true
    }

    proof fn lemma_value_range(&self) {
        lemma2_to64();
        lemma2_to64_rest();
    }

    fn is_flag(&self) -> (r: bool) {
        signed_single_bit(*self as i64)
    }

    fn is_bit_set(&self, bit: u8) -> (r: bool) {
        runtime_assert(bit < 16);
        signed_bit_of(*self as i64, bit)
    }

    fn is_flag_set(&self, flag: i16) -> (r: bool) {
        signed_bits_overlap(*self as i64, flag as i64)
    }

    fn bits_as_int(&self, bit: u8, count: u8) -> (r: i16) {
        runtime_assert(bit < 16 && count <= 16);
        proof {
            lemma2_to64();
            lemma2_to64_rest();
        }
        signed_field_of(*self as i64, bit, count, 16) as i16
    }
}

impl BitOps for i32 {
    open spec fn width() -> nat {
        32
    }

    open spec fn value(&self) -> int {
        *self as int
    }

    open spec fn is_signed() -> bool {
        true
    }

    proof fn lemma_value_range(&self) {
        lemma2_to64();
        lemma2_to64_rest();
    }

    fn is_flag(&self) -> (r: bool) {
        signed_single_bit(*self as i64)
    }

    fn is_bit_set(&self, bit: u8) -> (r: bool) {
        runtime_assert(bit < 32);
        signed_bit_of(*self as i64, bit)
    }

    fn is_flag_set(&self, flag: i32) -> (r: bool) {
        signed_bits_overlap(*self as i64, flag as i64)
    }

    fn bits_as_int(&self, bit: u8, count: u8) -> (r: i32) {
        runtime_assert(bit < 32 && count <= 32);
        proof {
            lemma2_to64();
            lemma2_to64_rest();
        }
        signed_field_of(*self as i64, bit, count, 32) as i32
    }
}

impl BitOps for i64 {
    open spec fn width() -> nat {
        64
    }

    open spec fn value(&self) -> int {
        *self as int
    }

    open spec fn is_signed() -> bool {
        true
    }

    proof fn lemma_value_range(&self) {
        lemma2_to64();
        lemma2_to64_rest();
    }

    fn is_flag(&self) -> (r: bool) {
        signed_single_bit(*self as i64)
    }

    fn is_bit_set(&self, bit: u8) -> (r: bool) {
        runtime_assert(bit < 64);
        signed_bit_of(*self as i64, bit)
    }

    fn is_flag_set(&self, flag: i64) -> (r: bool) {
        signed_bits_overlap(*self as i64, flag as i64)
    }

    fn bits_as_int(&self, bit: u8, count: u8) -> (r: i64) {
        runtime_assert(bit < 64 && count <= 64);
        proof {
            lemma2_to64();
            lemma2_to64_rest();
        }
        signed_field_of(*self as i64, bit, count, 64) as i64
    }
}

impl BitOps for usize {
    open spec fn width() -> nat {
        usize::BITS as nat
    }

    open spec fn value(&self) -> int {
        *self as int
    }

    open spec fn is_signed() -> bool {
        false
    }

    proof fn lemma_value_range(&self) {
        lemma2_to64();
        lemma2_to64_rest();
    }

    fn is_flag(&self) -> (r: bool) {
        single_bit(*self as u64)
    }

    fn is_bit_set(&self, bit: u8) -> (r: bool) {
        runtime_assert((bit as u32) < usize::BITS);
        bit_of(*self as u64, bit)
    }

    fn is_flag_set(&self, flag: usize) -> (r: bool) {
        bits_overlap(*self as u64, flag as u64)
    }

    fn bits_as_int(&self, bit: u8, count: u8) -> (r: usize) {
        runtime_assert((bit as u32) < usize::BITS && (count as u32) <= usize::BITS);
        proof {
            lemma2_to64();
            lemma2_to64_rest();
        }
        unsigned_field_of(*self as u64, bit, count, usize::BITS as u8) as usize
    }
}

impl BitOps for isize {
    open spec fn width() -> nat {
        usize::BITS as nat
    }

    open spec fn value(&self) -> int {
        *self as int
    }

    open spec fn is_signed() -> bool {
        true
    }

    proof fn lemma_value_range(&self) {
        lemma2_to64();
        lemma2_to64_rest();
    }

    fn is_flag(&self) -> (r: bool) {
        signed_single_bit(*self as i64)
    }

    fn is_bit_set(&self, bit: u8) -> (r: bool) {
        runtime_assert((bit as u32) < usize::BITS);
        signed_bit_of(*self as i64, bit)
    }

    fn is_flag_set(&self, flag: isize) -> (r: bool) {
        signed_bits_overlap(*self as i64, flag as i64)
    }

    fn bits_as_int(&self, bit: u8, count: u8) -> (r: isize) {
        runtime_assert((bit as u32) < usize::BITS && (count as u32) <= usize::BITS);
        proof {
            lemma2_to64();
            lemma2_to64_rest();
        }
        signed_field_of(*self as i64, bit, count, usize::BITS as u8) as isize
    }
}

} // verus!
