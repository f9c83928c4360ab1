use bitops::BitOps;

#[test]
fn flag_zero() {
    assert!(!0i32.is_flag());
}

#[test]
fn flag_set_blank() {
    assert!(!0x0000i32.is_flag_set(0));
}

#[test]
fn bits_at_zero() {
    assert_eq!(0xabcdi32.bits_as_int(0, 8), 0xcd);
}

#[test]
#[should_panic]
fn bits_overflow() {
    0u16.bits_as_int(16, 0);
}

#[test]
fn register_example() {
    let x: i32 = 0b1010_1011_0000_1100;
    let flag: i32 = 0b1000;
    assert!(flag.is_flag());
    assert!(flag.is_bit_set(3));
    assert!(x.is_flag_set(flag));
    assert_eq!(x.bits_as_int(8, 4), 0xb);
}

#[test]
fn single_bit_values_are_flags() {
    assert!(0b1000i32.is_flag());
    assert!(!0b1001i32.is_flag());
    for i in 0..8u32 {
        assert!((1u8 << i).is_flag());
    }
    for i in 0..64u32 {
        assert!((1u64 << i).is_flag());
    }
    assert!(!0u64.is_flag());
    assert!(!0b0110u8.is_flag());
    assert!(!u32::MAX.is_flag());
}

#[test]
fn negative_values_are_not_flags() {
    assert!(!(-1i8).is_flag());
    assert!(!i8::MIN.is_flag());
    assert!(!i64::MIN.is_flag());
    assert!(!(-8isize).is_flag());
    assert!(0x4000_0000i32.is_flag());
    assert!(8usize.is_flag());
}

#[test]
fn bit_set_matches_single_bit_mask() {
    for &v in &[0u16, 1, 0xab0c, 0xffff, 0x8001, 0x1234] {
        for i in 0..16u8 {
            assert_eq!(v.is_bit_set(i), v.is_flag_set(1u16 << i));
        }
    }
    for &v in &[0i32, 5, -7, -1, i32::MAX, i32::MIN] {
        for i in 0..32u8 {
            assert_eq!(v.is_bit_set(i), v.is_flag_set(1i32 << i));
        }
    }
}

#[test]
fn bit_set_reads_each_position() {
    assert!(0b1000u8.is_bit_set(3));
    assert!(!0b1000u8.is_bit_set(2));
    assert!(0x8000_0000_0000_0000u64.is_bit_set(63));
    assert!(!0x7fff_ffff_ffff_ffffu64.is_bit_set(63));
    assert!((-1i8).is_bit_set(7));
    assert!(!(1i8).is_bit_set(7));
    assert!((-2i16).is_bit_set(15));
    assert!(!(-2i16).is_bit_set(0));
    assert!((1usize << 5).is_bit_set(5));
    assert!((-1isize).is_bit_set(0));
}

#[test]
fn flag_set_needs_any_shared_bit() {
    assert!(0b11010i32.is_flag_set(0b11000));
    assert!(0b11010u8.is_flag_set(0b00010));
    assert!(!0b11010u8.is_flag_set(0b00101));
    assert!(0xffu8.is_flag_set(0x80));
    assert!(u64::MAX.is_flag_set(1u64 << 63));
}

#[test]
fn zero_mask_is_never_set() {
    assert!(!0u8.is_flag_set(0));
    assert!(!u16::MAX.is_flag_set(0));
    assert!(!(-1i64).is_flag_set(0));
    assert!(!0usize.is_flag_set(0));
}

#[test]
fn flag_set_with_negative_values() {
    assert!((-1i8).is_flag_set(1));
    assert!(!(-2i8).is_flag_set(1));
    assert!(4i16.is_flag_set(-4));
    assert!((-1i32).is_flag_set(-1));
    assert!(i8::MIN.is_flag_set(i8::MIN));
    assert!((-1isize).is_flag_set(-1));
    assert!((-2i64).is_flag_set(i64::MIN));
    assert!(!0i16.is_flag_set(-1));
}

#[test]
fn field_extraction_values() {
    assert_eq!(0xab000i32.bits_as_int(12, 8), 0xab);
    assert_eq!(0xabcdu16.bits_as_int(0, 8), 0xcd);
    assert_eq!(0xabcdu16.bits_as_int(4, 8), 0xbc);
    assert_eq!(0xabcdu16.bits_as_int(12, 8), 0xa);
    assert_eq!(0xdead_beefu32.bits_as_int(16, 16), 0xdead);
    assert_eq!(0x0123_4567_89ab_cdefu64.bits_as_int(60, 4), 0x0);
    assert_eq!(0xf123_4567_89ab_cdefu64.bits_as_int(60, 4), 0xf);
    assert_eq!(0xf123_4567_89ab_cdefu64.bits_as_int(8, 64), 0x00f1_2345_6789_abcd);
    assert_eq!(0xabusize.bits_as_int(4, 4), 0xa);
}

#[test]
fn field_extraction_of_negative_values() {
    assert_eq!((-1i16).bits_as_int(4, 8), 0xff);
    assert_eq!((-2i32).bits_as_int(1, 32), -1);
    assert_eq!((-256i32).bits_as_int(4, 32), -16);
    assert_eq!((-1i64).bits_as_int(40, 40), (1i64 << 40) - 1);
    assert_eq!((-1i8).bits_as_int(0, 7), 0x7f);
    assert_eq!(i8::MIN.bits_as_int(7, 1), 1);
    assert_eq!((-16isize).bits_as_int(4, 2), 0b11);
}

#[test]
fn whole_field_is_the_value() {
    for &v in &[0u8, 1, 0x80, 0xff, 0x5a] {
        assert_eq!(v.bits_as_int(0, 8), v);
    }
    assert_eq!(0xabcdu16.bits_as_int(0, 16), 0xabcd);
    assert_eq!(0xdead_beefu32.bits_as_int(0, 32), 0xdead_beef);
    assert_eq!(u64::MAX.bits_as_int(0, 64), u64::MAX);
    assert_eq!((-12345i32).bits_as_int(0, 32), -12345);
    assert_eq!(i64::MIN.bits_as_int(0, 64), i64::MIN);
    assert_eq!(i8::MIN.bits_as_int(0, 8), i8::MIN);
}

#[test]
fn empty_field_is_zero() {
    for start in 0..16u8 {
        assert_eq!(0xffffu16.bits_as_int(start, 0), 0);
        assert_eq!((-1i16).bits_as_int(start, 0), 0);
    }
    assert_eq!(u64::MAX.bits_as_int(63, 0), 0);
}
