//! Divisibility over the integers, and the facts about it that the
//! algorithms of this crate rest on.

use vstd::arithmetic::div_mod::{lemma_fundamental_div_mod, lemma_mod_multiples_basic};
use vstd::prelude::*;

verus! {

/// `d` divides `n`: `n` is an integer multiple of `d`.
/// Zero divides only zero.
pub open spec fn divides(d: int, n: int) -> bool {
    if d == 0 {
        n == 0
    } else {
        n % d == 0
    }
}

/// `c` divides both `a` and `b`.
pub open spec fn is_common_divisor(c: int, a: int, b: int) -> bool {
    divides(c, a) && divides(c, b)
}

/// A number that `d` divides is `d` times its quotient by `d`.
pub proof fn lemma_divides_quotient(d: int, n: int)
    requires
        divides(d, n),
    ensures
        n == (n / d) * d,
{
    if d != 0 {
        lemma_fundamental_div_mod(n, d);
        assert(d * (n / d) == (n / d) * d) by (nonlinear_arith);
    }
}

/// Every multiple of `d` is divisible by `d`.
pub proof fn lemma_multiple_divides(d: int, k: int)
    ensures
        divides(d, k * d),
{
    if d == 0 {
        assert(k * d == 0) by (nonlinear_arith)
            requires
                d == 0,
        ;
    } else if d > 0 {
        lemma_mod_multiples_basic(k, d);
    } else {
        // Euclidean remainders by `d` and by `-d` agree.
        lemma_mod_multiples_basic(-k, -d);
        assert((-k) * (-d) == k * d) by (nonlinear_arith);
        let n = k * d;
        lemma_fundamental_div_mod(n, d);
        lemma_fundamental_div_mod(n, -d);
        assert(n % d == 0) by (nonlinear_arith)
            requires
                d < 0,
                n == k * d,
                n == d * (n / d) + n % d,
                0 <= n % d < -d,
        ;
    }
}

/// A divisor of two numbers divides each of their integer combinations.
pub proof fn lemma_divides_combination(d: int, a: int, b: int, x: int, y: int)
    requires
        divides(d, a),
        divides(d, b),
    ensures
        divides(d, a * x + b * y),
{
    lemma_divides_quotient(d, a);
    lemma_divides_quotient(d, b);
    let ka = a / d;
    let kb = b / d;
    assert(a * x + b * y == (ka * x + kb * y) * d) by (nonlinear_arith)
        requires
            a == ka * d,
            b == kb * d,
    ;
    lemma_multiple_divides(d, ka * x + kb * y);
}

/// Divisibility is transitive.
pub proof fn lemma_divides_transitive(a: int, b: int, c: int)
    requires
        divides(a, b),
        divides(b, c),
    ensures
        divides(a, c),
{
    lemma_divides_quotient(a, b);
    lemma_divides_quotient(b, c);
    let kb = b / a;
    let kc = c / b;
    assert(c == (kc * kb) * a) by (nonlinear_arith)
        requires
            b == kb * a,
            c == kc * b,
    ;
    lemma_multiple_divides(a, kc * kb);
}

/// A non-negative divisor of a positive number is at most that number.
pub proof fn lemma_divisor_at_most(d: int, n: int)
    requires
        0 <= d,
        0 < n,
        divides(d, n),
    ensures
        1 <= d <= n,
{
    lemma_divides_quotient(d, n);
    let k = n / d;
    assert(1 <= d <= n) by (nonlinear_arith)
        requires
            0 <= d,
            0 < n,
            n == k * d,
    ;
}

/// Two non-negative numbers that divide each other are equal.
pub proof fn lemma_divides_antisymmetric(x: int, y: int)
    requires
        0 <= x,
        0 <= y,
        divides(x, y),
        divides(y, x),
    ensures
        x == y,
{
    if x != 0 && y != 0 {
        lemma_divisor_at_most(x, y);
        lemma_divisor_at_most(y, x);
    }
}

/// After a multiple of `step` the next number up by `step` is a multiple
/// too.
pub proof fn lemma_next_multiple_divides(step: int, low: int)
    requires
        divides(step, low),
    ensures
        divides(step, low + step),
{
    lemma_divides_quotient(step, low);
    let a = low / step;
    assert(low + step == (a + 1) * step) by (nonlinear_arith)
        requires
            low == a * step,
    ;
    lemma_multiple_divides(step, a + 1);
}

/// Between a multiple of `step` and the next one lies no multiple of
/// `step`.
pub proof fn lemma_no_multiple_between(step: int, low: int, k: int)
    requires
        0 < step,
        divides(step, low),
        low < k < low + step,
    ensures
        !divides(step, k),
{
    if divides(step, k) {
        lemma_divides_quotient(step, low);
        lemma_divides_quotient(step, k);
        let a = low / step;
        let b = k / step;
        assert(false) by (nonlinear_arith)
            requires
                0 < step,
                low == a * step,
                k == b * step,
                low < k < low + step,
        ;
    }
}

} // verus!
