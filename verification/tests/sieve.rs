use number_theory::sieve_of_earosthenes;

fn prime_by_trial_division(p: usize) -> bool {
    if p < 2 {
        return false;
    }
    let mut d = 2;
    while d * d <= p {
        if p % d == 0 {
            return false;
        }
        d += 1;
    }
    true
}

#[test]
fn sieve_below_two_is_empty() {
    assert_eq!(sieve_of_earosthenes(0), Vec::<usize>::new());
    assert_eq!(sieve_of_earosthenes(1), Vec::<usize>::new());
    assert_eq!(sieve_of_earosthenes(2), Vec::<usize>::new());
}

#[test]
fn sieve_bound_is_exclusive() {
    assert_eq!(sieve_of_earosthenes(3), vec![2]);
    assert_eq!(sieve_of_earosthenes(4), vec![2, 3]);
    assert_eq!(sieve_of_earosthenes(5), vec![2, 3]);
    assert_eq!(sieve_of_earosthenes(6), vec![2, 3, 5]);
    assert_eq!(sieve_of_earosthenes(59), vec![2, 3, 5, 7, 11, 13, 17, 19, 23, 29, 31, 37, 41, 43, 47, 53]);
}

#[test]
fn sieve_of_sixty() {
    assert_eq!(
        sieve_of_earosthenes(60),
        vec![2, 3, 5, 7, 11, 13, 17, 19, 23, 29, 31, 37, 41, 43, 47, 53, 59]
    );
}

#[test]
fn sieve_counts_known_primes() {
    assert_eq!(sieve_of_earosthenes(100).len(), 25);
    let below_3000 = sieve_of_earosthenes(3000);
    assert_eq!(below_3000.len(), 430);
    assert_eq!(below_3000[429], 2999);
    assert_eq!(sieve_of_earosthenes(1_000_000).len(), 78498);
}

#[test]
fn sieve_matches_trial_division() {
    for n in 0..400usize {
        let expected: Vec<usize> = (0..n).filter(|p| prime_by_trial_division(*p)).collect();
        assert_eq!(sieve_of_earosthenes(n), expected, "n = {}", n);
    }
    let expected: Vec<usize> = (0..5000).filter(|p| prime_by_trial_division(*p)).collect();
    assert_eq!(sieve_of_earosthenes(5000), expected);
}

#[test]
fn sieve_is_strictly_ascending() {
    let primes = sieve_of_earosthenes(2000);
    for pair in primes.windows(2) {
        assert!(pair[0] < pair[1]);
    }
}

#[test]
fn sieve_elements_have_no_proper_divisor() {
    let primes = sieve_of_earosthenes(1500);
    for (at, p) in primes.iter().enumerate() {
        for d in 2..*p {
            assert_ne!(p % d, 0);
        }
        for earlier in &primes[..at] {
            assert_ne!(earlier % p, 0);
            assert_ne!(p % earlier, 0);
        }
    }
}
