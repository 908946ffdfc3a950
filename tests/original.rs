use prime_factor::arith::gcd;
use prime_factor::factor::factor;
use prime_factor::modular::{modpow, modsquare};
use prime_factor::primality::miller_rabin;

#[test]
fn test_modsquare() {
    assert_eq!(modsquare(47, 99), 31);
    assert_eq!(modsquare(18446744073709551557u64, 18446744073709551533u64), 576);
}

#[test]
fn test_modpow() {
    assert_eq!(modpow(2, 10, 10), 4);
    assert_eq!(
        modpow(18446744073709551557u64, 18446744073709551533u64, 18446744073709551521u64),
        4561031516192244567u64
    );
}

#[test]
fn test_factor() {
    assert_eq!(factor(1u64 << 53), vec![(2, 53)]);
    assert_eq!(factor(47u64 << 53), vec![(2, 53), (47, 1)]);
    assert_eq!(factor((1u64 << 53) - 111), vec![(((1u64 << 53) - 111), 1)]);
    assert_eq!(factor(4294967291u64 * 4294967279u64), vec![(4294967279, 1), (4294967291, 1)]);
}

#[test]
fn test_gcd() {
    assert_eq!(gcd(100, 101), 1);
    assert_eq!(gcd(610, 377), 1);
    assert_eq!(gcd(341550071728321, 32010157 * 66670053), 32010157);
    assert_eq!(gcd(modpow(30, 13, u64::MAX), modpow(105, 9, u64::MAX)), modpow(15, 9, u64::MAX));
}

#[test]
fn test_mr() {
    assert_eq!(miller_rabin((1u64 << 53) - 111), true);
    assert_eq!(miller_rabin(31), true);
    assert_eq!(miller_rabin(961), false);
    assert_eq!(miller_rabin((1u64 << 53) - 1), false);
    assert_eq!(miller_rabin(341550071728321), false);
}
