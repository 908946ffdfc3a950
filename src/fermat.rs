use vstd::prelude::*;
use vstd::arithmetic::power::{pow, lemma_pow0, lemma_pow1, lemma_pow_adds};
use vstd::arithmetic::div_mod::{
    lemma_fundamental_div_mod,
    lemma_mod_multiples_basic,
    lemma_mul_mod_noop,
    lemma_mod_adds,
    lemma_small_mod,
    lemma_mod_multiples_vanish,
};
use crate::arith::is_prime;

verus! {

/// A multiple of `p` leaves no remainder.
proof fn lemma_mod_of_multiple(x: int, c: int, p: int)
    requires
        p > 0,
        x == c * p,
    ensures
        x % p == 0,
{
    lemma_mod_multiples_basic(c, p);
}

/// Euclid's lemma on residues: a prime `p` divides no product of two
/// integers in `(0, p)`.
proof fn lemma_prime_no_zero_divisors(p: nat, a: nat, b: nat)
    requires
        is_prime(p),
        0 < a < p,
        0 < b < p,
    ensures
        (a * b) % p != 0,
    decreases b,
{
    if b == 1 {
        lemma_small_mod(a, p);
        assert(a * b == a) by (nonlinear_arith)
            requires
                b == 1,
        ;
    } else if (a * b) % p == 0 {
        let q: int = (p / b) as int;
        let r: int = (p % b) as int;
        lemma_fundamental_div_mod(p as int, b as int);
        assert(r != 0);
        let t: int = ((a * b) / p) as int;
        lemma_fundamental_div_mod((a * b) as int, p as int);
        assert(a * r == p * (a - q * t)) by (nonlinear_arith)
            requires
                p == b * q + r,
                a * b == p * t + 0,
        ;
        assert(a * r > 0 && a - q * t > 0) by (nonlinear_arith)
            requires
                a > 0,
                r > 0,
                p > 0,
                a * r == p * (a - q * t),
        ;
        let rn: nat = r as nat;
        assert(a * rn == (a - q * t) * p) by (nonlinear_arith)
            requires
                a * r == p * (a - q * t),
                rn == r,
        ;
        lemma_mod_of_multiple((a * rn) as int, a - q * t, p as int);
        lemma_prime_no_zero_divisors(p, a, rn);
    }
}

/// Euclid's lemma: a prime dividing a product divides one of its factors.
pub proof fn lemma_euclid(p: nat, a: nat, b: nat)
    requires
        is_prime(p),
        (a * b) % p == 0,
    ensures
        a % p == 0 || b % p == 0,
{
    lemma_mul_mod_noop(a as int, b as int, p as int);
    if a % p != 0 && b % p != 0 {
        lemma_prime_no_zero_divisors(p, a % p, b % p);
    }
}

/// Binomial coefficients by Pascal's rule.
pub open spec fn binom(n: nat, k: nat) -> nat
    decreases n,
{
    if k == 0 {
        1
    } else if n == 0 {
        0
    } else {
        binom((n - 1) as nat, (k - 1) as nat) + binom((n - 1) as nat, k)
    }
}

/// `sum_{i < k} binom(n, i) * x^i`.
pub open spec fn binom_sum(n: nat, x: int, k: nat) -> int
    decreases k,
{
    if k == 0 {
        0
    } else {
        binom_sum(n, x, (k - 1) as nat) + binom(n, (k - 1) as nat) * pow(x, (k - 1) as nat)
    }
}

proof fn lemma_binom_above(n: nat, k: nat)
    requires
        k > n,
    ensures
        binom(n, k) == 0,
    decreases n,
{
    if n > 0 {
        lemma_binom_above((n - 1) as nat, (k - 1) as nat);
        lemma_binom_above((n - 1) as nat, k);
    }
}

/// Absorption: `k * binom(n, k) == n * binom(n - 1, k - 1)`.
proof fn lemma_binom_absorb(n: nat, k: nat)
    requires
        n >= 1,
        k >= 1,
    ensures
        k * binom(n, k) == n * binom((n - 1) as nat, (k - 1) as nat),
    decreases n,
{
    let m: nat = (n - 1) as nat;
    assert(binom(n, k) == binom(m, (k - 1) as nat) + binom(m, k));
    if m == 0 {
        assert(binom(0, 0) == 1);
        if k > 1 {
            lemma_binom_above(0, (k - 1) as nat);
            lemma_binom_above(0, k);
            assert(k * binom(n, k) == 0) by (nonlinear_arith)
                requires
                    binom(n, k) == 0,
            ;
        } else {
            lemma_binom_above(0, 1);
            assert(k * binom(n, k) == 1) by (nonlinear_arith)
                requires
                    binom(n, k) == 1,
                    k == 1,
            ;
        }
    } else {
        lemma_binom_absorb(m, k);
        if k == 1 {
            lemma_binom_absorb(m, 1);
            assert(binom((m - 1) as nat, 0) == 1);
            assert(binom(m, 0) == 1);
            assert(binom(m, 1) == m) by (nonlinear_arith)
                requires
                    1 * binom(m, 1) == m * binom((m - 1) as nat, 0),
                    binom((m - 1) as nat, 0) == 1,
            ;
            assert(k * binom(n, k) == n * binom(m, 0)) by (nonlinear_arith)
                requires
                    k == 1,
                    binom(n, k) == binom(m, 0) + binom(m, 1),
                    binom(m, 1) == m,
                    binom(m, 0) == 1,
                    n == m + 1,
            ;
        } else {
            lemma_binom_absorb(m, (k - 1) as nat);
            let a: int = binom((m - 1) as nat, (k - 1) as nat) as int;
            let b: int = binom((m - 1) as nat, (k - 2) as nat) as int;
            let c: int = binom(m, (k - 1) as nat) as int;
            let e: int = binom(m, k) as int;
            assert(c == b + a);
            assert(k * (c + e) == n * c) by (nonlinear_arith)
                requires
                    k * e == m * a,
                    (k - 1) * c == m * b,
                    c == b + a,
                    n == m + 1,
            ;
        }
    }
}

/// A prime `p` divides `binom(p, k)` for `0 < k < p`.
proof fn lemma_prime_divides_binom(p: nat, k: nat)
    requires
        is_prime(p),
        0 < k < p,
    ensures
        binom(p, k) % p == 0,
{
    lemma_binom_absorb(p, k);
    let c: nat = binom((p - 1) as nat, (k - 1) as nat);
    assert(k * binom(p, k) == c * p) by (nonlinear_arith)
        requires
            k * binom(p, k) == p * c,
    ;
    lemma_mod_of_multiple((k * binom(p, k)) as int, c as int, p as int);
    lemma_euclid(p, k, binom(p, k));
    lemma_small_mod(k, p);
}

/// Pascal's rule on the partial sums:
/// `binom_sum(n + 1, x, k + 1) == binom_sum(n, x, k + 1) + x * binom_sum(n, x, k)`.
proof fn lemma_binom_sum_step(n: nat, x: int, k: nat)
    ensures
        binom_sum(n + 1, x, k + 1) == binom_sum(n, x, k + 1) + x * binom_sum(n, x, k),
    decreases k,
{
    lemma_pow0(x);
    assert(binom_sum(n + 1, x, k + 1) == binom_sum(n + 1, x, k) + binom(n + 1, k) * pow(x, k));
    assert(binom_sum(n, x, k + 1) == binom_sum(n, x, k) + binom(n, k) * pow(x, k));
    if k == 0 {
        assert(binom(n + 1, 0) == 1 && binom(n, 0) == 1);
        assert(x * binom_sum(n, x, 0) == 0) by (nonlinear_arith)
            requires
                binom_sum(n, x, 0) == 0,
        ;
    } else {
        let j: nat = (k - 1) as nat;
        lemma_binom_sum_step(n, x, j);
        lemma_pow_adds(x, 1, j);
        lemma_pow1(x);
        let s1: int = binom_sum(n, x, k);
        let s0: int = binom_sum(n, x, j);
        let ck: int = binom(n, k) as int;
        let cj: int = binom(n, j) as int;
        let pk: int = pow(x, k);
        let pj: int = pow(x, j);
        assert(binom(n + 1, k) == binom(n, j) + binom(n, k));
        assert(s1 == s0 + cj * pj);
        assert((ck + cj) * pk == ck * pk + x * (cj * pj)) by (nonlinear_arith)
            requires
                pk == x * pj,
        ;
        assert(x * s1 == x * s0 + x * (cj * pj)) by (nonlinear_arith)
            requires
                s1 == s0 + cj * pj,
        ;
        assert(binom(n + 1, k) * pk == ck * pk + x * (cj * pj)) by (nonlinear_arith)
            requires
                binom(n + 1, k) == cj + ck,
                (ck + cj) * pk == ck * pk + x * (cj * pj),
        ;
    }
}

/// The binomial theorem at `y = 1`: `(x + 1)^n == sum_{i <= n} binom(n, i) x^i`.
proof fn lemma_binomial(n: nat, x: int)
    ensures
        pow(x + 1, n) == binom_sum(n, x, n + 1),
    decreases n,
{
    lemma_pow0(x);
    lemma_pow0(x + 1);
    if n == 0 {
        assert(binom(0, 0) == 1);
        assert(binom_sum(0, x, 1) == binom_sum(0, x, 0) + binom(0, 0) * pow(x, 0));
        assert(binom_sum(0, x, 1) == 1);
    } else {
        let m: nat = (n - 1) as nat;
        lemma_binomial(m, x);
        lemma_binom_sum_step(m, x, n);
        lemma_binom_above(m, n);
        lemma_pow_adds(x + 1, 1, m);
        lemma_pow1(x + 1);
        let s: int = binom_sum(m, x, n);
        assert(binom_sum(m, x, n + 1) == s + binom(m, n) * pow(x, n));
        assert(binom(m, n) * pow(x, n) == 0) by (nonlinear_arith)
            requires
                binom(m, n) == 0,
        ;
        assert(pow(x + 1, n) == (x + 1) * s) by (nonlinear_arith)
            requires
                pow(x + 1, n) == pow(x + 1, 1) * pow(x + 1, m),
                pow(x + 1, 1) == x + 1,
                pow(x + 1, m) == s,
        ;
        assert(s + x * s == (x + 1) * s) by (nonlinear_arith);
    }
}

/// Modulo a prime `p`, every middle term of `(x + 1)^p` vanishes: the partial
/// sums from the first term up to the `k`-th, `k <= p`, are one.
proof fn lemma_binom_sum_mod_prime(p: nat, x: int, k: nat)
    requires
        is_prime(p),
        1 <= k <= p,
    ensures
        binom_sum(p, x, k) % (p as int) == 1,
    decreases k,
{
    lemma_pow0(x);
    if k == 1 {
        assert(binom(p, 0) == 1);
        assert(binom_sum(p, x, 1) == binom_sum(p, x, 0) + binom(p, 0) * pow(x, 0));
        assert(binom_sum(p, x, 1) == 1);
        lemma_small_mod(1, p);
    } else {
        let j: nat = (k - 1) as nat;
        lemma_binom_sum_mod_prime(p, x, j);
        lemma_prime_divides_binom(p, j);
        let c: int = binom(p, j) as int;
        lemma_fundamental_div_mod(c, p as int);
        let t: int = c / (p as int);
        assert(c * pow(x, j) == p * (t * pow(x, j))) by (nonlinear_arith)
            requires
                c == p * t + 0,
        ;
        lemma_mod_multiples_vanish(t * pow(x, j), binom_sum(p, x, j), p as int);
    }
}

/// `0^e == 0` for `e >= 1`.
proof fn lemma_pow_zero_base(e: nat)
    requires
        e >= 1,
    ensures
        pow(0, e) == 0,
{
    lemma_pow_adds(0, 1, (e - 1) as nat);
    lemma_pow1(0);
}

/// Fermat's little theorem: `a^p == a (mod p)` for a prime `p`.
pub proof fn lemma_fermat(p: nat, a: nat)
    requires
        is_prime(p),
    ensures
        pow(a as int, p) % (p as int) == (a as int) % (p as int),
    decreases a,
{
    if a == 0 {
        lemma_pow_zero_base(p);
    } else {
        let x: int = (a - 1) as int;
        lemma_fermat(p, (a - 1) as nat);
        lemma_binomial(p, x);
        lemma_binom_sum_mod_prime(p, x, p);
        lemma_pow_adds(x, 0, p);
        assert(binom(p, p) == 1) by {
            lemma_binom_absorb(p, p);
            assert(p * binom(p, p) == p * binom((p - 1) as nat, (p - 1) as nat));
            assert(binom((p - 1) as nat, (p - 1) as nat) == 1) by {
                lemma_binom_diag((p - 1) as nat);
            }
            assert(binom(p, p) == 1) by (nonlinear_arith)
                requires
                    p * binom(p, p) == p * 1,
                    p >= 2,
            ;
        }
        assert(binom_sum(p, x, p + 1) == binom_sum(p, x, p) + binom(p, p) * pow(x, p));
        assert(binom(p, p) * pow(x, p) == pow(x, p)) by (nonlinear_arith)
            requires
                binom(p, p) == 1,
        ;
        lemma_mod_adds(binom_sum(p, x, p), pow(x, p), p as int);
        lemma_mod_adds(1, x, p as int);
        lemma_small_mod(1, p);
    }
}

proof fn lemma_binom_diag(n: nat)
    ensures
        binom(n, n) == 1,
    decreases n,
{
    if n > 0 {
        lemma_binom_diag((n - 1) as nat);
        lemma_binom_above((n - 1) as nat, n);
    }
}

/// Fermat's little theorem for a base prime to `p`: `a^(p-1) == 1 (mod p)`.
pub proof fn lemma_fermat_unit(p: nat, a: nat)
    requires
        is_prime(p),
        a % p != 0,
    ensures
        pow(a as int, (p - 1) as nat) % (p as int) == 1,
{
    lemma_fermat(p, a);
    lemma_pow_adds(a as int, 1, (p - 1) as nat);
    lemma_pow1(a as int);
    let u: int = pow(a as int, (p - 1) as nat);
    assert(a > 0) by {
        if a == 0 {
            lemma_small_mod(0, p);
        }
    }
    vstd::arithmetic::power::lemma_pow_positive(a as int, (p - 1) as nat);
    // a * u == a (mod p), so p divides a * (u - 1)
    lemma_fundamental_div_mod(a * u, p as int);
    lemma_fundamental_div_mod(a as int, p as int);
    let q1: int = (a * u) / (p as int);
    let q0: int = (a as int) / (p as int);
    assert(a * (u - 1) == p * (q1 - q0)) by (nonlinear_arith)
        requires
            a * u == p * q1 + (a * u) % (p as int),
            a == p * q0 + (a as int) % (p as int),
            (a * u) % (p as int) == (a as int) % (p as int),
    ;
    assert(a * (u - 1) >= 0 && q1 - q0 >= 0) by (nonlinear_arith)
        requires
            u >= 1,
            a * (u - 1) == p * (q1 - q0),
            p > 0,
    ;
    let un: nat = (u - 1) as nat;
    assert(a * un == (q1 - q0) * p) by (nonlinear_arith)
        requires
            a * (u - 1) == p * (q1 - q0),
            un == u - 1,
    ;
    lemma_mod_of_multiple((a * un) as int, q1 - q0, p as int);
    lemma_euclid(p, a, (u - 1) as nat);
    lemma_mod_adds(u - 1, 1, p as int);
    lemma_small_mod(1, p);
}

/// The only square roots of one modulo a prime are `1` and `p - 1`.
pub proof fn lemma_square_roots_of_one(p: nat, x: nat)
    requires
        is_prime(p),
        x < p,
        (x * x) % p == 1,
    ensures
        x == 1 || x == p - 1,
{
    if x == 0 {
        assert(x * x == 0);
        lemma_small_mod(0, p);
    } else {
        let t: int = ((x * x) / p) as int;
        lemma_fundamental_div_mod((x * x) as int, p as int);
        assert(((x - 1) as nat) * (x + 1) == (p * t) as nat) by (nonlinear_arith)
            requires
                x * x == p * t + 1,
                x >= 1,
        ;
        assert(((x - 1) as nat) * (x + 1) == t * p) by (nonlinear_arith)
            requires
                ((x - 1) as nat) * (x + 1) == (p * t) as nat,
                p * t >= 0,
        ;
        lemma_mod_of_multiple((((x - 1) as nat) * (x + 1)) as int, t, p as int);
        lemma_euclid(p, (x - 1) as nat, x + 1);
        if ((x - 1) as nat) % p == 0 {
            lemma_small_mod((x - 1) as nat, p);
        } else {
            if x + 1 < p {
                lemma_small_mod(x + 1, p);
            }
        }
    }
}

} // verus!
