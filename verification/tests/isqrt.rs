use number_theory::{checked_square, floor_sqrt, ISqrt, NumericError};

fn root_through_the_trait<T, U: ISqrt<T>>(x: U) -> Result<T, NumericError> {
    x.isqrt()
}

#[test]
fn isqrt_in_generic_code() {
    assert_eq!(root_through_the_trait(73u8), Ok(8u8));
    assert_eq!(root_through_the_trait(1_000_000i64), Ok(1000i64));
    assert_eq!(root_through_the_trait(-1i64), Err(NumericError::InvalidArgument));
}

#[test]
fn isqrt_of_named_values() {
    assert_eq!(ISqrt::isqrt(0u32), Ok(0u32));
    assert_eq!(ISqrt::isqrt(1u32), Ok(1u32));
    assert_eq!(ISqrt::isqrt(73u32), Ok(8u32));
    assert_eq!(ISqrt::isqrt(64u32), Ok(8u32));
    assert_eq!(ISqrt::isqrt(65u32), Ok(8u32));
}

#[test]
fn isqrt_of_small_values() {
    assert_eq!(ISqrt::isqrt(2u32), Ok(1u32));
    assert_eq!(ISqrt::isqrt(3u32), Ok(1u32));
    assert_eq!(ISqrt::isqrt(4u32), Ok(2u32));
    assert_eq!(ISqrt::isqrt(8u32), Ok(2u32));
    assert_eq!(ISqrt::isqrt(9u32), Ok(3u32));
    assert_eq!(ISqrt::isqrt(80u32), Ok(8u32));
    assert_eq!(ISqrt::isqrt(81u32), Ok(9u32));
}

#[test]
fn isqrt_on_every_unsigned_width() {
    assert_eq!(ISqrt::isqrt(73u8), Ok(8u8));
    assert_eq!(ISqrt::isqrt(73u16), Ok(8u16));
    assert_eq!(ISqrt::isqrt(73u32), Ok(8u32));
    assert_eq!(ISqrt::isqrt(73u64), Ok(8u64));
    assert_eq!(ISqrt::isqrt(73u128), Ok(8u128));
    assert_eq!(ISqrt::isqrt(73usize), Ok(8usize));
}

#[test]
fn isqrt_on_every_signed_width() {
    assert_eq!(ISqrt::isqrt(73i8), Ok(8i8));
    assert_eq!(ISqrt::isqrt(73i16), Ok(8i16));
    assert_eq!(ISqrt::isqrt(73i32), Ok(8i32));
    assert_eq!(ISqrt::isqrt(73i64), Ok(8i64));
    assert_eq!(ISqrt::isqrt(73i128), Ok(8i128));
    assert_eq!(ISqrt::isqrt(73isize), Ok(8isize));
    assert_eq!(ISqrt::isqrt(0i32), Ok(0i32));
    assert_eq!(ISqrt::isqrt(1i32), Ok(1i32));
}

#[test]
fn isqrt_of_largest_values() {
    assert_eq!(ISqrt::isqrt(u8::MAX), Ok(15u8));
    assert_eq!(ISqrt::isqrt(u16::MAX), Ok(255u16));
    assert_eq!(ISqrt::isqrt(u32::MAX), Ok(65535u32));
    assert_eq!(ISqrt::isqrt(u64::MAX), Ok(4294967295u64));
    assert_eq!(ISqrt::isqrt(u128::MAX), Ok(18446744073709551615u128));
    assert_eq!(ISqrt::isqrt(i8::MAX), Ok(11i8));
    assert_eq!(ISqrt::isqrt(i16::MAX), Ok(181i16));
    assert_eq!(ISqrt::isqrt(i32::MAX), Ok(46340i32));
    assert_eq!(ISqrt::isqrt(i64::MAX), Ok(3037000499i64));
    assert_eq!(ISqrt::isqrt(i128::MAX), Ok(13043817825332782212i128));
}

#[test]
fn isqrt_refuses_negative_input() {
    assert_eq!(ISqrt::isqrt(-1i8), Err(NumericError::InvalidArgument));
    assert_eq!(ISqrt::isqrt(-73i16), Err(NumericError::InvalidArgument));
    assert_eq!(ISqrt::isqrt(-1i32), Err(NumericError::InvalidArgument));
    assert_eq!(ISqrt::isqrt(i32::MIN), Err(NumericError::InvalidArgument));
    assert_eq!(ISqrt::isqrt(-4i64), Err(NumericError::InvalidArgument));
    assert_eq!(ISqrt::isqrt(i128::MIN), Err(NumericError::InvalidArgument));
    assert_eq!(ISqrt::isqrt(-9isize), Err(NumericError::InvalidArgument));
}

#[test]
fn isqrt_is_the_floor_of_the_root() {
    for x in 0..=u16::MAX {
        let r = ISqrt::isqrt(x).unwrap() as u32;
        let x = x as u32;
        assert!(r * r <= x && x < (r + 1) * (r + 1), "x = {}", x);
    }
    for x in 0..=i8::MAX {
        let r = ISqrt::isqrt(x).unwrap() as i32;
        let x = x as i32;
        assert!(r * r <= x && x < (r + 1) * (r + 1), "x = {}", x);
    }
}

#[test]
fn isqrt_around_perfect_squares() {
    for r in 1..2000u64 {
        let square = r * r;
        assert_eq!(ISqrt::isqrt(square - 1), Ok(r - 1));
        assert_eq!(ISqrt::isqrt(square), Ok(r));
        assert_eq!(ISqrt::isqrt(square + 1), Ok(r));
    }
    let r = u64::MAX as u128;
    assert_eq!(floor_sqrt(r * r - 1), r - 1);
    assert_eq!(floor_sqrt(r * r), r);
    assert_eq!(floor_sqrt(r * r + 1), r);
}

#[test]
fn floor_sqrt_of_named_values() {
    assert_eq!(floor_sqrt(0), 0);
    assert_eq!(floor_sqrt(1), 1);
    assert_eq!(floor_sqrt(2), 1);
    assert_eq!(floor_sqrt(73), 8);
    assert_eq!(floor_sqrt(1 << 126), 1 << 63);
    assert_eq!(floor_sqrt(u128::MAX), u64::MAX as u128);
}

#[test]
fn checked_square_within_range() {
    assert_eq!(checked_square(0), Ok(0));
    assert_eq!(checked_square(3), Ok(9));
    assert_eq!(checked_square(12), Ok(144));
    assert_eq!(
        checked_square(u64::MAX as u128),
        Ok(340282366920938463426481119284349108225u128)
    );
}

#[test]
fn checked_square_reports_overflow() {
    assert_eq!(checked_square(1 << 64), Err(NumericError::ArithmeticOverflow));
    assert_eq!(checked_square(u128::MAX), Err(NumericError::ArithmeticOverflow));
}
