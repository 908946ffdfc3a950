use vstd::prelude::*;
use vstd::arithmetic::power::lemma_pow0;
use vstd::arithmetic::power2::{pow2, lemma_pow2_unfold, lemma_pow2_pos};
use vstd::arithmetic::div_mod::{lemma_fundamental_div_mod, lemma_mod_multiples_basic};
use vstd::bits::lemma_u64_shr_is_div;
use vstd::std_specs::bits::{u64_trailing_zeros, axiom_u64_trailing_zeros};

verus! {

/// `n` is prime: it is at least two and no integer in `[2, n)` divides it.
pub open spec fn is_prime(n: nat) -> bool {
    n >= 2 && forall|k: nat| 2 <= k < n ==> #[trigger] (n % k) != 0
}

/// `k` divides `n`; zero divides only zero.
pub open spec fn divides(k: nat, n: nat) -> bool {
    if k == 0 {
        n == 0
    } else {
        n % k == 0
    }
}

/// The low `k` bits of `m` are all clear, so `2^k` divides `m`, for every `k`
/// up to the trailing-zero count of `m`.
proof fn lemma_low_zeros_divide(m: u64, k: nat)
    requires
        m != 0,
        k <= u64_trailing_zeros(m),
    ensures
        (m as int) % (pow2(k) as int) == 0,
    decreases k,
{
    lemma_pow2_pos(k);
    if k == 0 {
        lemma_pow0(2);
    } else {
        let j: nat = (k - 1) as nat;
        lemma_low_zeros_divide(m, j);
        axiom_u64_trailing_zeros(m);
        let ju: u64 = j as u64;
        assert((m >> ju) & 1u64 == 0u64);
        lemma_u64_shr_is_div(m, ju);
        let x: u64 = m >> ju;
        assert(x & 1u64 == 0u64 ==> x % 2 == 0) by (bit_vector);
        lemma_pow2_pos(j);
        lemma_pow2_unfold(k);
        let p: int = pow2(j) as int;
        let q: int = m as int / p;
        lemma_fundamental_div_mod(m as int, p);
        assert(q % 2 == 0);
        assert(m as int == (q / 2) * (2 * p)) by (nonlinear_arith)
            requires
                m as int == p * q + 0,
                q % 2 == 0,
        ;
        lemma_mod_multiples_basic(q / 2, 2 * p);
    }
}

/// A nonzero `m` splits at its trailing zero bits into an odd part times a
/// power of two: `m == (m >> t) * 2^t`, with `t` the trailing-zero count.
pub proof fn lemma_trailing_zeros_split(m: u64)
    requires
        m != 0,
    ensures
        u64_trailing_zeros(m) < 64,
        (m >> (u64_trailing_zeros(m) as u64)) as int * pow2(u64_trailing_zeros(m) as nat) == m,
        (m >> (u64_trailing_zeros(m) as u64)) % 2 == 1,
{
    axiom_u64_trailing_zeros(m);
    let t: u64 = u64_trailing_zeros(m) as u64;
    lemma_low_zeros_divide(m, t as nat);
    lemma_u64_shr_is_div(m, t);
    let x: u64 = m >> t;
    assert(x & 1u64 == 1u64 ==> x % 2 == 1) by (bit_vector);
    lemma_pow2_pos(t as nat);
    lemma_fundamental_div_mod(m as int, pow2(t as nat) as int);
    assert(x as int * pow2(t as nat) == pow2(t as nat) * (m as int / pow2(t as nat) as int)) by (nonlinear_arith)
        requires
            x as int == m as int / pow2(t as nat) as int,
    ;
}

/// The common divisors of `x` and `y` are those of `y` and `x mod y`.
proof fn lemma_common_divisors_mod(x: nat, y: nat, k: nat)
    requires
        y != 0,
    ensures
        (divides(k, x) && divides(k, y)) <==> (divides(k, y) && divides(k, x % y)),
{
    if k != 0 {
        let q: int = (x / y) as int;
        let r: int = (x % y) as int;
        lemma_fundamental_div_mod(x as int, y as int);
        if y % k == 0 {
            let b: int = (y / k) as int;
            lemma_fundamental_div_mod(y as int, k as int);
            assert(y as int == k * b);
            if x % k == 0 {
                let a: int = (x / k) as int;
                lemma_fundamental_div_mod(x as int, k as int);
                assert(r == (a - b * q) * k) by (nonlinear_arith)
                    requires
                        x as int == k * a,
                        y as int == k * b,
                        x as int == y * q + r,
                ;
                lemma_mod_multiples_basic(a - b * q, k as int);
            }
            if r % (k as int) == 0 {
                let c: int = r / (k as int);
                lemma_fundamental_div_mod(r, k as int);
                assert(x as int == (b * q + c) * k) by (nonlinear_arith)
                    requires
                        r == k * c,
                        y as int == k * b,
                        x as int == y * q + r,
                ;
                lemma_mod_multiples_basic(b * q + c, k as int);
            }
        }
    }
}

/// The greatest common divisor of `a` and `b`, by Euclid's algorithm:
/// it divides both, and every common divisor of the two divides it.
pub fn gcd(a: u64, b: u64) -> (r: u64)
    ensures
        divides(r as nat, a as nat),
        divides(r as nat, b as nat),
        forall|k: nat| divides(k, a as nat) && divides(k, b as nat) ==> divides(k, r as nat),
{
    let mut x: u64 = a;
    let mut y: u64 = b;
    while y != 0
        invariant
            forall|k: nat|
                (divides(k, a as nat) && divides(k, b as nat)) <==> (#[trigger] divides(k, x as nat)
                    && divides(k, y as nat)),
        decreases y,
    {
        let t: u64 = x % y;
        proof {
            assert forall|k: nat|
                (divides(k, a as nat) && divides(k, b as nat)) <==> (#[trigger] divides(k, y as nat)
                    && divides(k, t as nat)) by {
                lemma_common_divisors_mod(x as nat, y as nat, k);
                assert((divides(k, a as nat) && divides(k, b as nat)) <==> (divides(k, x as nat)
                    && divides(k, y as nat)));
            }
        }
        x = y;
        y = t;
    }
    assert(divides(x as nat, x as nat));
    assert forall|k: nat| divides(k, a as nat) && divides(k, b as nat) implies divides(k, x as nat) by {
        assert(divides(k, x as nat) && divides(k, 0));
    }
    x
}

} // verus!
