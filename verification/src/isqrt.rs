//! Integer square roots by bisection, for every primitive integer type.

use crate::error::NumericError;
use vstd::prelude::*;

verus! {

/// `r` is the integer square root of `x`: the largest non-negative integer
/// whose square does not exceed `x`.
pub open spec fn is_floor_sqrt(x: int, r: int) -> bool {
    0 <= r && r * r <= x < (r + 1) * (r + 1)
}

/// Squaring is monotone on the non-negative integers.
pub proof fn lemma_square_monotone(a: int, b: int)
    requires
        0 <= a <= b,
    ensures
        a * a <= b * b,
{
    assert(a * a <= b * b) by (nonlinear_arith)
        requires
            0 <= a <= b,
    ;
}

/// A number has one integer square root only.
pub proof fn lemma_floor_sqrt_unique(x: int, r: int, s: int)
    requires
        is_floor_sqrt(x, r),
        is_floor_sqrt(x, s),
    ensures
        r == s,
{
    if r < s {
        lemma_square_monotone(r + 1, s);
    } else if s < r {
        lemma_square_monotone(s + 1, r);
    }
}

/// The square of `v`, or `ArithmeticOverflow` where it does not fit in 128
/// bits.
pub fn checked_square(v: u128) -> (square: Result<u128, NumericError>)
    ensures
        v * v <= u128::MAX <==> square is Ok,
        v * v <= u128::MAX ==> square == Ok::<u128, NumericError>((v * v) as u128),
        v * v > u128::MAX ==> square == Err::<u128, NumericError>(
            NumericError::ArithmeticOverflow,
        ),
{
    match v.checked_mul(v) {
        Some(square) => Ok(square),
        None => Err(NumericError::ArithmeticOverflow),
    }
}

/// The integer square root of `x`, by bisection.
///
/// Zero and one are their own roots. For a larger `x` the root lies in
/// `1..x`; the interval is halved, by comparing the square of its midpoint
/// with `x`, until the midpoint is an exact root or the interval has
/// width 1. A midpoint whose square does not fit in 128 bits is too large.
pub fn floor_sqrt(x: u128) -> (root: u128)
    ensures
        is_floor_sqrt(x as int, root as int),
        root <= x,
{
    if x < 2 {
        proof {
            assert(x * x <= x < (x + 1) * (x + 1)) by (nonlinear_arith)
                requires
                    0 <= x < 2,
            ;
        }
        return x;
    }
    let mut lo: u128 = 1;
    let mut hi: u128 = x;
    proof {
        assert(x < hi * hi) by (nonlinear_arith)
            requires
                hi == x,
                x >= 2,
        ;
    }
    while hi - lo > 1
        invariant
            1 <= lo < hi <= x,
            lo * lo <= x < hi * hi,
        decreases hi - lo,
    {
        let mid: u128 = lo + (hi - lo) / 2;
        match checked_square(mid) {
            Ok(square) => {
                if square == x {
                    proof {
                        assert(mid * mid < (mid + 1) * (mid + 1)) by (nonlinear_arith);
                    }
                    return mid;
                } else if square < x {
                    lo = mid;
                } else {
                    hi = mid;
                }
            },
            Err(_) => {
                hi = mid;
            },
        }
    }
    lo
}

/// Integer square root, for every primitive integer type.
///
/// `radicand` reads the number whose root is taken, and `root_value` the
/// root, as mathematical integers. The primitive types have an inherent
/// method of the same name, which a method call `x.isqrt()` picks; this one
/// is called as `ISqrt::isqrt(x)`.
pub trait ISqrt<T> {
    /// The number whose root is taken.
    spec fn radicand(self) -> int;

    /// The value of a root.
    spec fn root_value(root: T) -> int;

    /// The integer square root: the largest `r` with `r * r <= self`. A
    /// negative number has none and is refused with `InvalidArgument`.
    fn isqrt(self) -> (root: Result<T, NumericError>)
        ensures
            self.radicand() < 0 <==> root == Err::<T, NumericError>(NumericError::InvalidArgument),
            self.radicand() >= 0 <==> root is Ok,
            root matches Ok(r) ==> is_floor_sqrt(self.radicand(), Self::root_value(r)),
    ;
}

impl ISqrt<u8> for u8 {
    open spec fn radicand(self) -> int {
        self as int
    }

    open spec fn root_value(root: u8) -> int {
        root as int
    }

    fn isqrt(self) -> (root: Result<u8, NumericError>) {
        Ok(floor_sqrt(self as u128) as u8)
    }
}

impl ISqrt<u16> for u16 {
    open spec fn radicand(self) -> int {
        self as int
    }

    open spec fn root_value(root: u16) -> int {
        root as int
    }

    fn isqrt(self) -> (root: Result<u16, NumericError>) {
        Ok(floor_sqrt(self as u128) as u16)
    }
}

impl ISqrt<u32> for u32 {
    open spec fn radicand(self) -> int {
        self as int
    }

    open spec fn root_value(root: u32) -> int {
        root as int
    }

    fn isqrt(self) -> (root: Result<u32, NumericError>) {
        Ok(floor_sqrt(self as u128) as u32)
    }
}

impl ISqrt<u64> for u64 {
    open spec fn radicand(self) -> int {
        self as int
    }

    open spec fn root_value(root: u64) -> int {
        root as int
    }

    fn isqrt(self) -> (root: Result<u64, NumericError>) {
        Ok(floor_sqrt(self as u128) as u64)
    }
}

impl ISqrt<u128> for u128 {
    open spec fn radicand(self) -> int {
        self as int
    }

    open spec fn root_value(root: u128) -> int {
        root as int
    }

    fn isqrt(self) -> (root: Result<u128, NumericError>) {
        Ok(floor_sqrt(self))
    }
}

impl ISqrt<usize> for usize {
    open spec fn radicand(self) -> int {
        self as int
    }

    open spec fn root_value(root: usize) -> int {
        root as int
    }

    fn isqrt(self) -> (root: Result<usize, NumericError>) {
        Ok(floor_sqrt(self as u128) as usize)
    }
}

impl ISqrt<i8> for i8 {
    open spec fn radicand(self) -> int {
        self as int
    }

    open spec fn root_value(root: i8) -> int {
        root as int
    }

    fn isqrt(self) -> (root: Result<i8, NumericError>) {
        if self < 0 {
            Err(NumericError::InvalidArgument)
        } else {
            Ok(floor_sqrt(self as u128) as i8)
        }
    }
}

impl ISqrt<i16> for i16 {
    open spec fn radicand(self) -> int {
        self as int
    }

    open spec fn root_value(root: i16) -> int {
        root as int
    }

    fn isqrt(self) -> (root: Result<i16, NumericError>) {
        if self < 0 {
            Err(NumericError::InvalidArgument)
        } else {
            Ok(floor_sqrt(self as u128) as i16)
        }
    }
}

impl ISqrt<i32> for i32 {
    open spec fn radicand(self) -> int {
        self as int
    }

    open spec fn root_value(root: i32) -> int {
        root as int
    }

    fn isqrt(self) -> (root: Result<i32, NumericError>) {
        if self < 0 {
            Err(NumericError::InvalidArgument)
        } else {
            Ok(floor_sqrt(self as u128) as i32)
        }
    }
}

impl ISqrt<i64> for i64 {
    open spec fn radicand(self) -> int {
        self as int
    }

    open spec fn root_value(root: i64) -> int {
        root as int
    }

    fn isqrt(self) -> (root: Result<i64, NumericError>) {
        if self < 0 {
            Err(NumericError::InvalidArgument)
        } else {
            Ok(floor_sqrt(self as u128) as i64)
        }
    }
}

impl ISqrt<i128> for i128 {
    open spec fn radicand(self) -> int {
        self as int
    }

    open spec fn root_value(root: i128) -> int {
        root as int
    }

    fn isqrt(self) -> (root: Result<i128, NumericError>) {
        if self < 0 {
            Err(NumericError::InvalidArgument)
        } else {
            Ok(floor_sqrt(self as u128) as i128)
        }
    }
}

impl ISqrt<isize> for isize {
    open spec fn radicand(self) -> int {
        self as int
    }

    open spec fn root_value(root: isize) -> int {
        root as int
    }

    fn isqrt(self) -> (root: Result<isize, NumericError>) {
        if self < 0 {
            Err(NumericError::InvalidArgument)
        } else {
            Ok(floor_sqrt(self as u128) as isize)
        }
    }
}

} // verus!
