use number_theory::{descending_search, gcd_euclid, gcd_int_checking, NumericError};

fn largest_common_divisor(m: u32, n: u32) -> u32 {
    let mut best = 0;
    let top = if m > n { m } else { n };
    for c in 1..=top {
        if m % c == 0 && n % c == 0 {
            best = c;
        }
    }
    best
}

#[test]
fn euclid_on_sample_pair() {
    assert_eq!(gcd_euclid(60, 24), 12);
    assert_eq!(gcd_euclid(24, 60), 12);
}

#[test]
fn euclid_on_coprime_and_equal_operands() {
    assert_eq!(gcd_euclid(17, 5), 1);
    assert_eq!(gcd_euclid(1, 1), 1);
    assert_eq!(gcd_euclid(42, 42), 42);
    assert_eq!(gcd_euclid(1071, 462), 21);
}

#[test]
fn euclid_with_zero_operand() {
    assert_eq!(gcd_euclid(0, 0), 0);
    assert_eq!(gcd_euclid(7, 0), 7);
    assert_eq!(gcd_euclid(0, 7), 7);
    assert_eq!(gcd_euclid(u32::MAX, 0), u32::MAX);
    for m in 0..500u32 {
        assert_eq!(gcd_euclid(m, 0), m);
    }
}

#[test]
fn euclid_on_largest_operands() {
    assert_eq!(gcd_euclid(u32::MAX, u32::MAX), u32::MAX);
    assert_eq!(gcd_euclid(u32::MAX, u32::MAX - 1), 1);
    assert_eq!(gcd_euclid(u32::MAX, 65537), 65537);
    assert_eq!(gcd_euclid(1 << 31, 1 << 20), 1 << 20);
}

#[test]
fn int_checking_on_sample_pair() {
    assert_eq!(gcd_int_checking(60, 24), 12);
    assert_eq!(gcd_int_checking(24, 60), 12);
    assert_eq!(gcd_int_checking(1071, 462), 21);
    assert_eq!(gcd_int_checking(17, 5), 1);
}

#[test]
fn int_checking_with_zero_operand() {
    assert_eq!(gcd_int_checking(0, 0), 0);
    assert_eq!(gcd_int_checking(9, 0), 9);
    assert_eq!(gcd_int_checking(0, 9), 9);
    assert_eq!(gcd_int_checking(u32::MAX, 0), u32::MAX);
    assert_eq!(gcd_int_checking(0, u32::MAX), u32::MAX);
}

#[test]
fn both_algorithms_agree() {
    for m in 0..80u32 {
        for n in 0..80u32 {
            assert_eq!(gcd_euclid(m, n), gcd_int_checking(m, n), "m = {}, n = {}", m, n);
        }
    }
}

#[test]
fn both_algorithms_find_the_largest_common_divisor() {
    for m in 0..60u32 {
        for n in 0..60u32 {
            if m != 0 || n != 0 {
                let expected = largest_common_divisor(m, n);
                assert_eq!(gcd_euclid(m, n), expected);
                assert_eq!(gcd_int_checking(m, n), expected);
            }
        }
    }
}

#[test]
fn gcd_divides_both_operands() {
    for (m, n) in [(60u32, 24u32), (1_000_000, 350), (999_983, 1_000_003), (4096, 6144)] {
        let g = gcd_euclid(m, n);
        assert_eq!(m % g, 0);
        assert_eq!(n % g, 0);
    }
}

#[test]
fn descending_search_refuses_zero_start() {
    assert_eq!(descending_search(12, 18, 0), Err(NumericError::DivisionByZero));
    assert_eq!(descending_search(0, 0, 0), Err(NumericError::DivisionByZero));
}

#[test]
fn descending_search_finds_largest_candidate() {
    assert_eq!(descending_search(12, 18, 12), Ok(6));
    assert_eq!(descending_search(12, 18, 6), Ok(6));
    assert_eq!(descending_search(12, 18, 5), Ok(3));
    assert_eq!(descending_search(12, 18, 2), Ok(2));
    assert_eq!(descending_search(12, 18, 1), Ok(1));
    assert_eq!(descending_search(7, 11, 7), Ok(1));
    assert_eq!(descending_search(0, 0, 5), Ok(5));
    assert_eq!(descending_search(0, 10, 7), Ok(5));
}
