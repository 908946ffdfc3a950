use prime_factor::arith::gcd;
use prime_factor::factor::factor;
use prime_factor::modular::{modpow, modsquare};
use prime_factor::primality::miller_rabin;
use prime_factor::search::{prime_candidate, primes_between, rand_prime_between};

fn sieve(limit: usize) -> Vec<bool> {
    let mut prime = vec![true; limit + 1];
    prime[0] = false;
    prime[1] = false;
    let mut i = 2;
    while i * i <= limit {
        if prime[i] {
            let mut j = i * i;
            while j <= limit {
                prime[j] = false;
                j += i;
            }
        }
        i += 1;
    }
    prime
}

struct SplitMix(u64);

impl SplitMix {
    fn next(&mut self) -> u64 {
        self.0 = self.0.wrapping_add(0x9E3779B97F4A7C15);
        let mut z = self.0;
        z = (z ^ (z >> 30)).wrapping_mul(0xBF58476D1CE4E5B9);
        z = (z ^ (z >> 27)).wrapping_mul(0x94D049BB133111EB);
        z ^ (z >> 31)
    }
}

fn rebuild(fs: &[(u64, u64)]) -> u128 {
    let mut acc: u128 = 1;
    for &(p, e) in fs {
        for _ in 0..e {
            acc *= p as u128;
        }
    }
    acc
}

#[test]
fn miller_rabin_agrees_with_sieve_to_a_million() {
    let limit = 1_000_000;
    let prime = sieve(limit);
    for n in 2..=limit {
        assert_eq!(miller_rabin(n as u64), prime[n], "n = {}", n);
    }
}

#[test]
fn miller_rabin_known_values() {
    assert!(!miller_rabin(341550071728321));
    assert!(!miller_rabin(961));
    assert!(miller_rabin((1u64 << 53) - 111));
    assert!(!miller_rabin((1u64 << 53) - 1));
    assert!(miller_rabin(2));
    assert!(miller_rabin(3));
    assert!(miller_rabin(37));
    assert!(!miller_rabin(4));
    assert!(!miller_rabin(74));
    assert!(miller_rabin(18446744073709551557));
    assert!(!miller_rabin(u64::MAX));
    assert!(!miller_rabin(3215031751));
}

#[test]
fn modpow_zero_exponent_is_one() {
    assert_eq!(modpow(0, 0, 1), 1);
    assert_eq!(modpow(0, 0, 7), 1);
    assert_eq!(modpow(12345, 0, 1), 1);
    assert_eq!(modpow(u64::MAX, 0, u64::MAX), 1);
}

#[test]
fn modpow_exact_values() {
    assert_eq!(modpow(3, 4, 1000), 81);
    assert_eq!(modpow(7, 1, 5), 2);
    assert_eq!(modpow(5, 3, 1), 0);
    assert_eq!(modpow(0, 5, 13), 0);
    assert_eq!(modpow(2, 64, u64::MAX), 1);
    assert_eq!(modpow(10, 18, u64::MAX), 1_000_000_000_000_000_000);
}

#[test]
fn modsquare_exact_values() {
    assert_eq!(modsquare(0, 1), 0);
    assert_eq!(modsquare(9, 1), 0);
    assert_eq!(modsquare(12, 100), 44);
    assert_eq!(modsquare(u64::MAX, u64::MAX), 0);
    assert_eq!(modsquare(u64::MAX, u64::MAX - 1), 1);
}

#[test]
fn factor_of_zero_and_one_is_empty() {
    assert_eq!(factor(0), vec![]);
    assert_eq!(factor(1), vec![]);
}

#[test]
fn factor_small_values() {
    assert_eq!(factor(2), vec![(2, 1)]);
    assert_eq!(factor(360), vec![(2, 3), (3, 2), (5, 1)]);
    assert_eq!(factor(49), vec![(7, 2)]);
    assert_eq!(factor(7 * 11 * 13 * 29 * 31), vec![(7, 1), (11, 1), (13, 1), (29, 1), (31, 1)]);
    assert_eq!(factor(961), vec![(31, 2)]);
    assert_eq!(factor(1u64 << 63), vec![(2, 63)]);
    assert_eq!(factor(u64::MAX), vec![(3, 1), (5, 1), (17, 1), (257, 1), (641, 1), (65537, 1), (6700417, 1)]);
}

#[test]
fn factor_rebuilds_random_composites() {
    let mut rng = SplitMix(20240611);
    for _ in 0..300 {
        let a = rng.next() % (1 << 20) + 2;
        let b = rng.next() % (1 << 20) + 2;
        let c = rng.next() % (1 << 20) + 1;
        let n = a * b * c;
        let fs = factor(n);
        assert_eq!(rebuild(&fs), n as u128);
        for w in fs.windows(2) {
            assert!(w[0].0 < w[1].0);
        }
        for &(p, e) in &fs {
            assert!(e >= 1);
            assert!(miller_rabin(p));
        }
    }
}

#[test]
fn gcd_edge_values() {
    assert_eq!(gcd(0, 0), 0);
    assert_eq!(gcd(0, 12), 12);
    assert_eq!(gcd(12, 0), 12);
    assert_eq!(gcd(48, 18), 6);
    assert_eq!(gcd(u64::MAX, u64::MAX), u64::MAX);
}

#[test]
fn primes_between_lists_accepted_numbers() {
    assert_eq!(primes_between(2, 30), vec![2, 3, 5, 7, 11, 13, 17, 19, 23, 29]);
    assert_eq!(primes_between(24, 28), vec![]);
    assert_eq!(primes_between(10, 5), vec![]);
    assert_eq!(primes_between(u64::MAX - 58, u64::MAX), vec![18446744073709551557]);
}

#[test]
fn rand_prime_between_picks_from_the_range() {
    assert_eq!(rand_prime_between(24, 28), None);
    assert_eq!(rand_prime_between(9, 8), None);
    assert_eq!(rand_prime_between(29, 29), Some(29));
    assert_eq!(rand_prime_between(u64::MAX - 58, u64::MAX), Some(18446744073709551557));
    for _ in 0..50 {
        let p = rand_prime_between(90, 200).unwrap();
        assert!((90..=200).contains(&p));
        assert!(miller_rabin(p));
    }
}

#[test]
fn prime_candidate_sets_top_and_low_bits() {
    assert_eq!(prime_candidate(0), (1u64 << 63) | 1);
    assert_eq!(prime_candidate(6), (1u64 << 63) | 7);
    assert_eq!(prime_candidate(u64::MAX), u64::MAX);
}
