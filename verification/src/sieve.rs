//! Prime numbers and the sieve of Eratosthenes.

use crate::divisibility::{
    divides, lemma_divides_transitive, lemma_divisor_at_most, lemma_multiple_divides,
    lemma_next_multiple_divides, lemma_no_multiple_between,
};
use vstd::prelude::*;

verus! {

/// `p` is prime: it is at least 2 and nothing strictly between 1 and `p`
/// divides it.
pub open spec fn is_prime(p: int) -> bool {
    &&& p >= 2
    &&& forall|d: int| 1 < d < p ==> !#[trigger] divides(d, p)
}

/// A prime has no divisor other than 1 and itself.
pub proof fn lemma_prime_divisors(p: int, d: int)
    requires
        is_prime(p),
        0 <= d,
        divides(d, p),
    ensures
        d == 1 || d == p,
{
    lemma_divisor_at_most(d, p);
}

/// A number with a divisor strictly between 1 and itself is not prime.
pub proof fn lemma_proper_divisor_not_prime(d: int, k: int)
    requires
        1 < d < k,
        divides(d, k),
    ensures
        !is_prime(k),
{
}

/// The marks of a sieve are sound: whatever is struck out is not prime.
spec fn marks_sound(marks: Seq<bool>) -> bool {
    forall|k: int| 0 <= k < marks.len() && !#[trigger] marks[k] ==> !is_prime(k)
}

/// Every proper multiple of every number in `2..bound` is struck out.
spec fn multiples_struck(marks: Seq<bool>, bound: int) -> bool {
    forall|d: int, k: int|
        1 < d < bound && d < k < marks.len() && #[trigger] divides(d, k) ==> !marks[k]
}

/// `primes` lists, in ascending order and each once, exactly the primes
/// below `bound`.
spec fn lists_primes_below(primes: Seq<usize>, bound: int) -> bool {
    &&& forall|a: int|
        0 <= a < primes.len() ==> is_prime(#[trigger] primes[a] as int) && primes[a] < bound
    &&& forall|a: int, b: int| 0 <= a < b < primes.len() ==> primes[a] < primes[b]
    &&& forall|p: int|
        0 <= p < bound && is_prime(p) ==> exists|a: int|
            0 <= a < primes.len() && #[trigger] primes[a] == p
}

/// The sieve of Eratosthenes: all primes strictly below `n`, ascending.
///
/// A table of `n` marks starts with every number from 2 on unmarked. The
/// numbers are visited in order; one that is still unmarked is prime, is
/// recorded, and has its proper multiples struck out. For `n` below 2
/// there is no table and the result is empty.
pub fn sieve_of_earosthenes(n: usize) -> (primes: Vec<usize>)
    ensures
        forall|a: int| 0 <= a < primes@.len() ==> is_prime(#[trigger] primes@[a] as int),
        forall|a: int| 0 <= a < primes@.len() ==> #[trigger] primes@[a] < n,
        forall|a: int, b: int| 0 <= a < b < primes@.len() ==> primes@[a] < primes@[b],
        forall|p: int| 0 <= p < n && is_prime(p) ==> primes@.contains(p as usize),
        forall|a: int, d: int|
            0 <= a < primes@.len() && 0 <= d && #[trigger] divides(d, primes@[a] as int) ==> d == 1
                || d == primes@[a],
        forall|a: int, b: int|
            0 <= a < b < primes@.len() ==> !divides(primes@[b] as int, primes@[a] as int)
                && !divides(primes@[a] as int, primes@[b] as int),
        n <= 2 ==> primes@.len() == 0,
{
    let mut primes: Vec<usize> = Vec::new();
    if n < 2 {
        return primes;
    }
    let mut sieve: Vec<bool> = vec![true; n];
    sieve[0] = false;
    sieve[1] = false;
    let mut i: usize = 2;
    while i < n
        invariant
            2 <= i <= n,
            sieve@.len() == n,
            marks_sound(sieve@),
            multiples_struck(sieve@, i as int),
            lists_primes_below(primes@, i as int),
        decreases n - i,
    {
        if sieve[i] {
            proof {
                assert forall|d: int| 1 < d < i implies !#[trigger] divides(d, i as int) by {
                    if divides(d, i as int) {
                        assert(!sieve@[i as int]);
                    }
                }
            }
            let ghost before = primes@;
            primes.push(i);
            proof {
                assert forall|p: int| 0 <= p < i + 1 && is_prime(p) implies exists|a: int|
                    0 <= a < primes@.len() && #[trigger] primes@[a] == p by {
                    if p < i {
                        let a = choose|a: int| 0 <= a < before.len() && #[trigger] before[a] == p;
                        assert(primes@[a] == p);
                    } else {
                        assert(primes@[before.len() as int] == p);
                    }
                }
            }
            // Only where `2 * i` is still inside the table is there anything
            // to strike out.
            if i <= (n - 1) / 2 {
                let mut j: usize = 2 * i;
                proof {
                    lemma_multiple_divides(i as int, 2);
                    assert forall|k: int|
                        i < k < j && k < n && divides(i as int, k) implies !sieve@[k] by {
                        lemma_multiple_divides(i as int, 1);
                        lemma_no_multiple_between(i as int, i as int, k);
                    }
                }
                while j < n
                    invariant
                        2 <= i < j,
                        i < n,
                        j == n || divides(i as int, j as int),
                        sieve@.len() == n,
                        marks_sound(sieve@),
                        multiples_struck(sieve@, i as int),
                        forall|k: int| i < k < j && k < n && divides(i as int, k) ==> !sieve@[k],
                    decreases n - j,
                {
                    proof {
                        lemma_proper_divisor_not_prime(i as int, j as int);
                    }
                    sieve[j] = false;
                    // The next multiple, or the end of the table where that
                    // multiple lies beyond it.
                    let next: usize = if n - j > i {
                        j + i
                    } else {
                        n
                    };
                    proof {
                        assert forall|k: int|
                            i < k < next && k < n && divides(i as int, k) implies !sieve@[k] by {
                            if k > j {
                                lemma_no_multiple_between(i as int, j as int, k);
                            }
                        }
                        if next < n {
                            lemma_next_multiple_divides(i as int, j as int);
                        }
                    }
                    j = next;
                }
            } else {
                proof {
                    assert forall|k: int| i < k < n && divides(i as int, k) implies !sieve@[k] by {
                        lemma_multiple_divides(i as int, 1);
                        lemma_no_multiple_between(i as int, i as int, k);
                    }
                }
            }
        } else {
            proof {
                assert(!is_prime(i as int));
                let d = choose|d: int| 1 < d < i && divides(d, i as int);
                assert forall|k: int| i < k < n && divides(i as int, k) implies !sieve@[k] by {
                    lemma_divides_transitive(d, i as int, k);
                }
            }
        }
        i += 1;
    }
    proof {
        assert forall|a: int, b: int| 0 <= a < b < primes@.len() implies !divides(
            primes@[b] as int,
            primes@[a] as int,
        ) && !divides(primes@[a] as int, primes@[b] as int) by {
            assert(is_prime(primes@[a] as int) && is_prime(primes@[b] as int));
            if divides(primes@[b] as int, primes@[a] as int) {
                lemma_divisor_at_most(primes@[b] as int, primes@[a] as int);
            }
        }
        if n <= 2 && primes@.len() > 0 {
            assert(is_prime(primes@[0] as int));
        }
        assert forall|p: int| 0 <= p < n && is_prime(p) implies primes@.contains(p as usize) by {
            let a = choose|a: int| 0 <= a < primes@.len() && #[trigger] primes@[a] == p;
            assert(primes@[a] == p as usize);
        }
        assert forall|a: int, d: int|
            0 <= a < primes@.len() && 0 <= d && #[trigger] divides(
                d,
                primes@[a] as int,
            ) implies d == 1 || d == primes@[a] by {
            lemma_prime_divisors(primes@[a] as int, d);
        }
    }
    primes
}

} // verus!
