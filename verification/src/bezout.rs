//! Bézout coefficients by the extended Euclidean algorithm on signed
//! integers.

use crate::gcd::gcd;
use vstd::arithmetic::div_mod::lemma_fundamental_div_mod;
use vstd::math::abs;
use vstd::prelude::*;

verus! {

/// The quotient of `a` by `b` rounded toward zero, as machine division
/// rounds it.
pub open spec fn truncating_quotient(a: int, b: int) -> int {
    if a >= 0 {
        if b >= 0 {
            a / b
        } else {
            -(a / (-b))
        }
    } else {
        if b >= 0 {
            -((-a) / b)
        } else {
            (-a) / (-b)
        }
    }
}

/// What is left of `a` after taking out `truncating_quotient(a, b)` times
/// `b`. It has the sign of `a`, or is zero.
pub open spec fn truncating_remainder(a: int, b: int) -> int {
    if a >= 0 {
        if b >= 0 {
            a % b
        } else {
            a % (-b)
        }
    } else {
        if b >= 0 {
            -((-a) % b)
        } else {
            -((-a) % (-b))
        }
    }
}

/// The triple `(x, y, d)` that the extended Euclidean algorithm assigns to
/// `(a, b)`: for `b == 0` it is `(1, 0, a)`; otherwise it is built from the
/// triple of `(b, r)`, where `a == q * b + r` is division rounded toward
/// zero.
pub open spec fn bezout(a: int, b: int) -> (int, int, int)
    decreases abs(b),
{
    if b == 0 {
        (1, 0, a)
    } else {
        let q = truncating_quotient(a, b);
        let inner = bezout(b, truncating_remainder(a, b));
        (inner.1, inner.0 - q * inner.1, inner.2)
    }
}

/// Both numbers are at least zero, or both are at most zero.
pub open spec fn aligned(a: int, b: int) -> bool {
    (a >= 0 && b >= 0) || (a <= 0 && b <= 0)
}

/// One number is at least zero and the other at most zero.
pub open spec fn opposed(a: int, b: int) -> bool {
    (a >= 0 && b <= 0) || (a <= 0 && b >= 0)
}

/// Division rounded toward zero splits `a` into a multiple of `b` and a
/// remainder that is smaller than `b` in magnitude and has the sign of `a`.
pub proof fn lemma_truncating_division(a: int, b: int)
    requires
        b != 0,
    ensures
        a == truncating_quotient(a, b) * b + truncating_remainder(a, b),
        abs(truncating_remainder(a, b)) == abs(a) % abs(b),
        abs(truncating_remainder(a, b)) < abs(b),
        abs(truncating_quotient(a, b)) * abs(b) + abs(truncating_remainder(a, b)) == abs(a),
        abs(truncating_quotient(a, b)) <= abs(a),
        aligned(a, truncating_remainder(a, b)),
        aligned(a, b) ==> truncating_quotient(a, b) >= 0,
        opposed(a, b) ==> truncating_quotient(a, b) <= 0,
{
    let ma = abs(a) as int;
    let mb = abs(b) as int;
    let mq = ma / mb;
    let mr = ma % mb;
    lemma_fundamental_div_mod(ma, mb);
    assert(0 <= mq <= ma && mq * mb + mr == ma) by (nonlinear_arith)
        requires
            ma == mb * mq + mr,
            0 <= mr < mb,
            0 <= ma,
    ;
    let q = truncating_quotient(a, b);
    let r = truncating_remainder(a, b);
    if a >= 0 && b > 0 {
        assert(a == q * b + r);
    } else if a >= 0 {
        assert(q * b == mq * mb) by (nonlinear_arith)
            requires
                q == -mq,
                b == -mb,
        ;
    } else if b > 0 {
        assert(q * b == -(mq * mb)) by (nonlinear_arith)
            requires
                q == -mq,
                b == mb,
        ;
    } else {
        assert(q * b == -(mq * mb)) by (nonlinear_arith)
            requires
                q == mq,
                b == -mb,
        ;
    }
}

/// Machine division of signed integers, read as Euclidean division of the
/// dividend where that is non-negative and of its negation where it is
/// not, is division rounded toward zero.
proof fn lemma_machine_division(a: int, b: int)
    requires
        b != 0,
    ensures
        truncating_quotient(a, b) == (if a >= 0 {
            a / b
        } else {
            -((-a) / b)
        }),
{
    let ma = abs(a) as int;
    let mb = abs(b) as int;
    if b < 0 {
        lemma_fundamental_div_mod(ma, mb);
        lemma_fundamental_div_mod(ma, b);
        let q1 = ma / mb;
        let r1 = ma % mb;
        let q2 = ma / b;
        let r2 = ma % b;
        assert(q2 == -q1) by (nonlinear_arith)
            requires
                ma == mb * q1 + r1,
                ma == b * q2 + r2,
                mb == -b,
                b < 0,
                0 <= r1 < mb,
                0 <= r2 < mb,
        ;
    }
}

/// The triple of `(a, b)` is a Bézout triple: `a * x + b * y == d`.
pub proof fn lemma_bezout_identity(a: int, b: int)
    ensures
        a * bezout(a, b).0 + b * bezout(a, b).1 == bezout(a, b).2,
    decreases abs(b),
{
    if b != 0 {
        let q = truncating_quotient(a, b);
        let r = truncating_remainder(a, b);
        lemma_truncating_division(a, b);
        lemma_bezout_identity(b, r);
        let inner = bezout(b, r);
        assert(a * inner.1 + b * (inner.0 - q * inner.1) == inner.2) by (nonlinear_arith)
            requires
                a == q * b + r,
                b * inner.0 + r * inner.1 == inner.2,
        ;
    }
}

/// The last component of the triple of `(a, b)` is, up to its sign, the
/// greatest common divisor of the magnitudes of `a` and `b`.
pub proof fn lemma_bezout_gcd(a: int, b: int)
    ensures
        abs(bezout(a, b).2) == gcd(abs(a), abs(b)),
    decreases abs(b),
{
    if b != 0 {
        lemma_truncating_division(a, b);
        lemma_bezout_gcd(b, truncating_remainder(a, b));
    }
}

/// One round of the algorithm on a coefficient pair: magnitudes add up,
/// the weighted sum with the remainders keeps its value, and the signs of
/// the new pair relate as those of the old pair did.
proof fn lemma_coefficient_step(
    old_c: int,
    c: int,
    q: int,
    old_d: int,
    d: int,
    r: int,
    total: int,
)
    requires
        abs(q) * abs(d) + abs(r) == abs(old_d),
        abs(c) * abs(old_d) + abs(old_c) * abs(d) == total,
        (q >= 0 && opposed(old_c, c)) || (q <= 0 && aligned(old_c, c)),
    ensures
        abs(old_c - q * c) == abs(old_c) + abs(q) * abs(c),
        abs(old_c - q * c) * abs(d) + abs(c) * abs(r) == total,
        q >= 0 && opposed(old_c, c) ==> opposed(c, old_c - q * c),
        q <= 0 && aligned(old_c, c) ==> aligned(c, old_c - q * c),
{
    let p = q * c;
    let mq = abs(q) as int;
    let mc = abs(c) as int;
    let mo = abs(old_c) as int;
    let md = abs(d) as int;
    let mr = abs(r) as int;
    let mp = abs(old_d) as int;
    assert(abs(p) == mq * mc && (p >= 0 <== aligned(q, c)) && (p <= 0 <== opposed(q, c)))
        by (nonlinear_arith)
        requires
            p == q * c,
            mq == abs(q),
            mc == abs(c),
    ;
    assert(abs(old_c - p) == mo + mq * mc);
    assert((mo + mq * mc) * md + mc * mr == total) by (nonlinear_arith)
        requires
            mq * md + mr == mp,
            mc * mp + mo * md == total,
    ;
}

/// Within one round, while the weighted sum of a coefficient pair is at
/// most 2^31: the products that the round forms stay within 63 bits, and
/// the coefficient that becomes the old one is at most 2^30 in magnitude
/// unless the remainders have not yet begun to shrink.
proof fn lemma_round_bounds(
    old_c: int,
    c: int,
    q: int,
    old_d: int,
    d: int,
    r: int,
    total: int,
)
    requires
        d != 0,
        total <= 0x8000_0000,
        abs(q) <= abs(old_d) <= 0x8000_0000,
        abs(c) * abs(old_d) + abs(old_c) * abs(d) == total,
        abs(old_c - q * c) * abs(d) + abs(c) * abs(r) == total,
        abs(d) < abs(old_d) || abs(c) <= 1,
    ensures
        abs(c) <= 0x8000_0000,
        abs(q * c) <= 0x4000_0000_0000_0000,
        abs(old_c - q * c) <= 0x8000_0000,
        abs(d) < abs(old_d) ==> abs(c) <= 0x4000_0000,
{
    let mq = abs(q) as int;
    let mc = abs(c) as int;
    let mo = abs(old_c) as int;
    let md = abs(d) as int;
    let mr = abs(r) as int;
    let mp = abs(old_d) as int;
    let mn = abs(old_c - q * c) as int;
    assert(mc <= 0x8000_0000 && (md < mp ==> mc <= 0x4000_0000)) by (nonlinear_arith)
        requires
            mc * mp + mo * md == total,
            total <= 0x8000_0000,
            md < mp || mc <= 1,
            1 <= md,
            0 <= mc,
            0 <= mo,
            0 <= mp,
    ;
    assert(mn <= 0x8000_0000) by (nonlinear_arith)
        requires
            mn * md + mc * mr == total,
            total <= 0x8000_0000,
            1 <= md,
            0 <= mc,
            0 <= mr,
            0 <= mn,
    ;
    assert(abs(q * c) <= 0x4000_0000_0000_0000) by (nonlinear_arith)
        requires
            abs(q) <= 0x8000_0000,
            abs(c) <= 0x8000_0000,
    ;
}

/// Replacing `(old_c, c)` by `(c, old_c - q * c)` and `(u, v)` by
/// `(v, u - q * v)` leaves `old_c * u + c * v` unchanged.
proof fn lemma_round_combination(old_c: int, c: int, q: int, u: int, v: int)
    ensures
        c * u + (old_c - q * c) * v == old_c * v + c * (u - q * v),
{
    assert(c * u + (old_c - q * c) * v == old_c * v + c * (u - q * v)) by (nonlinear_arith);
}

/// The extended Euclidean algorithm. Returns `(x, y, d)` with
/// `m * x + n * y == d`, where `d` is, up to its sign, the greatest common
/// divisor of `m` and `n`.
///
/// Three pairs `(old_d, d)`, `(old_x, x)`, `(old_y, y)` start at `(m, n)`,
/// `(1, 0)`, `(0, 1)`. Each round takes the quotient of `old_d` by `d`,
/// rounded toward zero, and replaces every pair `(old, cur)` by
/// `(cur, old - quotient * cur)`. When `d` is zero the three `old` values
/// are the result. The rounds are computed in 64 bits, so that no input
/// overflows.
pub fn extended_euclid(m: i32, n: i32) -> (t: (i32, i32, i32))
    ensures
        (t.0 as int, t.1 as int, t.2 as int) == bezout(m as int, n as int),
        m * t.0 + n * t.1 == t.2,
        abs(t.2 as int) == gcd(abs(m as int), abs(n as int)),
        n == 0 ==> t == (1i32, 0i32, m),
{
    let mut old_d: i64 = m as i64;
    let mut d: i64 = n as i64;
    let mut old_x: i64 = 1;
    let mut x: i64 = 0;
    let mut old_y: i64 = 0;
    let mut y: i64 = 1;
    proof {
        assert(abs(x as int) * abs(old_d as int) == 0) by (nonlinear_arith)
            requires
                abs(x as int) == 0,
        ;
        assert(abs(old_x as int) * abs(d as int) == abs(d as int)) by (nonlinear_arith)
            requires
                abs(old_x as int) == 1,
        ;
        assert(abs(y as int) * abs(old_d as int) == abs(old_d as int)) by (nonlinear_arith)
            requires
                abs(y as int) == 1,
        ;
        assert(abs(old_y as int) * abs(d as int) == 0) by (nonlinear_arith)
            requires
                abs(old_y as int) == 0,
        ;
    }
    while d != 0
        invariant
            i32::MIN <= old_d <= i32::MAX,
            i32::MIN <= d <= i32::MAX,
            old_x * bezout(old_d as int, d as int).0 + x * bezout(old_d as int, d as int).1
                == bezout(m as int, n as int).0,
            old_y * bezout(old_d as int, d as int).0 + y * bezout(old_d as int, d as int).1
                == bezout(m as int, n as int).1,
            bezout(old_d as int, d as int).2 == bezout(m as int, n as int).2,
            abs(x as int) * abs(old_d as int) + abs(old_x as int) * abs(d as int) == abs(n as int),
            abs(y as int) * abs(old_d as int) + abs(old_y as int) * abs(d as int) == abs(m as int),
            aligned(m as int, n as int) ==> aligned(old_d as int, d as int) && opposed(
                old_x as int,
                x as int,
            ) && opposed(old_y as int, y as int),
            !aligned(m as int, n as int) ==> opposed(old_d as int, d as int) && aligned(
                old_x as int,
                x as int,
            ) && aligned(old_y as int, y as int),
            abs(d as int) < abs(old_d as int) || (old_x == 1 && x == 0 && old_y == 0 && y == 1),
            abs(old_x as int) <= 0x4000_0000,
            abs(old_y as int) <= 0x4000_0000,
        decreases abs(d as int),
    {
        let ghost q = truncating_quotient(old_d as int, d as int);
        let ghost r = truncating_remainder(old_d as int, d as int);
        proof {
            lemma_truncating_division(old_d as int, d as int);
            lemma_machine_division(old_d as int, d as int);
            lemma_coefficient_step(
                old_x as int,
                x as int,
                q,
                old_d as int,
                d as int,
                r,
                abs(n as int) as int,
            );
            lemma_coefficient_step(
                old_y as int,
                y as int,
                q,
                old_d as int,
                d as int,
                r,
                abs(m as int) as int,
            );
            lemma_round_bounds(
                old_x as int,
                x as int,
                q,
                old_d as int,
                d as int,
                r,
                abs(n as int) as int,
            );
            lemma_round_bounds(
                old_y as int,
                y as int,
                q,
                old_d as int,
                d as int,
                r,
                abs(m as int) as int,
            );
            lemma_round_combination(
                old_x as int,
                x as int,
                q,
                bezout(d as int, r).0,
                bezout(d as int, r).1,
            );
            lemma_round_combination(
                old_y as int,
                y as int,
                q,
                bezout(d as int, r).0,
                bezout(d as int, r).1,
            );
            assert(q * d == old_d - r);
        }
        let quotient: i64 = old_d / d;
        let next_d: i64 = old_d - quotient * d;
        let next_x: i64 = old_x - quotient * x;
        let next_y: i64 = old_y - quotient * y;
        old_d = d;
        d = next_d;
        old_x = x;
        x = next_x;
        old_y = y;
        y = next_y;
    }
    proof {
        assert(bezout(old_d as int, 0) == (1int, 0int, old_d as int));
        assert(old_x * 1 + x * 0 == old_x) by (nonlinear_arith);
        assert(old_y * 1 + y * 0 == old_y) by (nonlinear_arith);
        lemma_bezout_identity(m as int, n as int);
        lemma_bezout_gcd(m as int, n as int);
    }
    (old_x as i32, old_y as i32, old_d as i32)
}

} // verus!
