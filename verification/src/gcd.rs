//! Greatest common divisors of unsigned integers.

use crate::divisibility::{
    divides, is_common_divisor, lemma_divides_antisymmetric, lemma_divides_combination,
    lemma_divisor_at_most,
};
use crate::error::NumericError;
use vstd::arithmetic::div_mod::lemma_fundamental_div_mod;
use vstd::prelude::*;

verus! {

/// `g` is the greatest common divisor of `a` and `b`: it divides both, and
/// every common divisor divides it. With this reading the greatest common
/// divisor of zero and zero is zero.
pub open spec fn is_gcd(a: nat, b: nat, g: nat) -> bool {
    &&& is_common_divisor(g as int, a as int, b as int)
    &&& forall|c: nat| #[trigger]
        is_common_divisor(c as int, a as int, b as int) ==> divides(c as int, g as int)
}

/// The greatest common divisor, by Euclid's recurrence
/// `gcd(a, b) == gcd(b, a mod b)`.
pub open spec fn gcd(a: nat, b: nat) -> nat
    decreases b,
{
    if b == 0 {
        a
    } else {
        gcd(b, a % b)
    }
}

/// Euclid's recurrence yields a common divisor.
pub proof fn lemma_gcd_divides_both(a: nat, b: nat)
    ensures
        is_common_divisor(gcd(a, b) as int, a as int, b as int),
    decreases b,
{
    if b != 0 {
        let r = a % b;
        let g = gcd(b, r) as int;
        lemma_gcd_divides_both(b, r);
        lemma_fundamental_div_mod(a as int, b as int);
        lemma_divides_combination(g, b as int, r as int, a as int / b as int, 1);
        assert(b as int * (a as int / b as int) + r as int * 1 == a as int);
    } else {
        assert(divides(a as int, a as int)) by {
            if a != 0 {
                vstd::arithmetic::div_mod::lemma_mod_self_0(a as int);
            }
        }
    }
}

/// Every common divisor of `a` and `b` divides what Euclid's recurrence
/// yields.
pub proof fn lemma_common_divisor_divides_gcd(a: nat, b: nat, c: nat)
    requires
        is_common_divisor(c as int, a as int, b as int),
    ensures
        divides(c as int, gcd(a, b) as int),
    decreases b,
{
    if b != 0 {
        let r = a % b;
        lemma_fundamental_div_mod(a as int, b as int);
        lemma_divides_combination(c as int, a as int, b as int, 1, -(a as int / b as int));
        assert(a as int * 1 + b as int * (-(a as int / b as int)) == r as int) by (nonlinear_arith)
            requires
                a as int == b as int * (a as int / b as int) + r as int,
        ;
        lemma_common_divisor_divides_gcd(b, r, c);
    }
}

/// Euclid's recurrence yields the greatest common divisor.
pub proof fn lemma_gcd_is_gcd(a: nat, b: nat)
    ensures
        is_gcd(a, b, gcd(a, b)),
{
    lemma_gcd_divides_both(a, b);
    assert forall|c: nat| #[trigger]
        is_common_divisor(c as int, a as int, b as int) implies divides(
        c as int,
        gcd(a, b) as int,
    ) by {
        lemma_common_divisor_divides_gcd(a, b, c);
    }
}

/// A pair of numbers has one greatest common divisor only.
pub proof fn lemma_gcd_unique(a: nat, b: nat, g: nat, h: nat)
    requires
        is_gcd(a, b, g),
        is_gcd(a, b, h),
    ensures
        g == h,
{
    assert(is_common_divisor(g as int, a as int, b as int));
    assert(is_common_divisor(h as int, a as int, b as int));
    lemma_divides_antisymmetric(g as int, h as int);
}

/// What the descending search from the smaller of two positive numbers
/// finds is what Euclid's recurrence yields.
pub proof fn lemma_search_finds_gcd(m: nat, n: nat, t: nat)
    requires
        m != 0,
        n != 0,
        1 <= t <= m,
        t <= n,
        is_common_divisor(t as int, m as int, n as int),
        forall|c: int| t < c <= m && c <= n ==> !is_common_divisor(c, m as int, n as int),
    ensures
        t == gcd(m, n),
{
    let g = gcd(m, n);
    lemma_gcd_divides_both(m, n);
    lemma_common_divisor_divides_gcd(m, n, t);
    lemma_divisor_at_most(g as int, m as int);
    lemma_divisor_at_most(g as int, n as int);
    lemma_divisor_at_most(t as int, g as int);
}

/// With zero, the greatest common divisor is the other number, whichever
/// side the zero stands on.
pub proof fn lemma_gcd_with_zero(a: nat)
    ensures
        gcd(a, 0) == a,
        gcd(0, a) == a,
{
    if a != 0 {
        assert(0nat % a == 0);
        assert(gcd(0, a) == gcd(a, 0));
    }
}

/// Unless both numbers are zero, no common divisor exceeds the greatest
/// common divisor.
pub proof fn lemma_gcd_bounds_common_divisors(a: nat, b: nat)
    ensures
        forall|c: int|
            #[trigger] is_common_divisor(c, a as int, b as int) && (a != 0 || b != 0) ==> c <= gcd(
                a,
                b,
            ),
{
    assert forall|c: int|
        #[trigger] is_common_divisor(c, a as int, b as int) && (a != 0 || b != 0) implies c <= gcd(
        a,
        b,
    ) by {
        if c > 0 {
            lemma_gcd_divides_both(a, b);
            lemma_common_divisor_divides_gcd(a, b, c as nat);
            let g = gcd(a, b);
            if g == 0 {
                assert(a == 0 && b == 0);
            } else {
                lemma_divisor_at_most(c, g as int);
            }
        }
    }
}

/// Euclid's algorithm and consecutive integer checking agree: the number
/// that Euclid's recurrence yields is the one that satisfies the definition
/// of the greatest common divisor, which is what the descending search
/// looks for.
pub proof fn lemma_gcd_algorithms_agree(m: nat, n: nat, by_euclid: nat, by_checking: nat)
    requires
        by_euclid == gcd(m, n),
        is_gcd(m, n, by_checking),
    ensures
        by_euclid == by_checking,
{
    lemma_gcd_is_gcd(m, n);
    lemma_gcd_unique(m, n, by_euclid, by_checking);
}

/// Euclid's algorithm: replaces `(m, n)` by `(n, m mod n)` until `n` is
/// zero, and returns what `m` has become.
pub fn gcd_euclid(m: u32, n: u32) -> (g: u32)
    ensures
        is_gcd(m as nat, n as nat, g as nat),
        g == gcd(m as nat, n as nat),
        n == 0 ==> g == m,
        m == 0 ==> g == n,
{
    let mut a: u32 = m;
    let mut b: u32 = n;
    while b != 0
        invariant
            gcd(a as nat, b as nat) == gcd(m as nat, n as nat),
        decreases b,
    {
        let r: u32 = a % b;
        a = b;
        b = r;
    }
    proof {
        lemma_gcd_is_gcd(m as nat, n as nat);
        lemma_gcd_with_zero(n as nat);
    }
    a
}

/// The descending search: the largest number from `start` downward that
/// divides both `m` and `n`. The candidates are tried in turn, `start`
/// first, so a `start` of zero would be a division by zero and is refused.
pub fn descending_search(m: u32, n: u32, start: u32) -> (found: Result<u32, NumericError>)
    ensures
        start == 0 <==> found == Err::<u32, NumericError>(NumericError::DivisionByZero),
        start != 0 <==> found is Ok,
        found matches Ok(t) ==> 1 <= t <= start,
        found matches Ok(t) ==> is_common_divisor(t as int, m as int, n as int),
        found matches Ok(t) ==> forall|c: int|
            t < c <= start ==> !is_common_divisor(c, m as int, n as int),
{
    if start == 0 {
        return Err(NumericError::DivisionByZero);
    }
    let mut t: u32 = start;
    while !(m % t == 0 && n % t == 0)
        invariant
            1 <= t <= start,
            forall|c: int| t < c <= start ==> !is_common_divisor(c, m as int, n as int),
        decreases t,
    {
        t -= 1;
    }
    Ok(t)
}

/// Consecutive integer checking: the greatest common divisor found by
/// trying the candidates from the smaller of `m` and `n` downward. Where
/// the search cannot start because one of the two is zero, the result is
/// the other one.
pub fn gcd_int_checking(m: u32, n: u32) -> (g: u32)
    ensures
        is_gcd(m as nat, n as nat, g as nat),
        g == gcd(m as nat, n as nat),
        m == 0 ==> g == n,
        n == 0 ==> g == m,
        m != 0 || n != 0 ==> forall|c: int|
            #[trigger] is_common_divisor(c, m as int, n as int) ==> c <= g,
{
    let start: u32 = if m < n {
        m
    } else {
        n
    };
    proof {
        lemma_gcd_is_gcd(m as nat, n as nat);
    }
    match descending_search(m, n, start) {
        Ok(t) => {
            proof {
                lemma_search_finds_gcd(m as nat, n as nat, t as nat);
                lemma_gcd_bounds_common_divisors(m as nat, n as nat);
            }
            t
        },
        Err(_) => {
            let other: u32 = if m == 0 {
                n
            } else {
                m
            };
            proof {
                lemma_gcd_with_zero(other as nat);
                lemma_gcd_bounds_common_divisors(m as nat, n as nat);
            }
            other
        },
    }
}

} // verus!
