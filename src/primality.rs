use vstd::prelude::*;
use vstd::arithmetic::power::{pow, lemma_pow0, lemma_pow_adds};
use vstd::arithmetic::power2::{pow2, lemma_pow2_unfold, lemma_pow2_pos};
use vstd::arithmetic::div_mod::{
    lemma_mul_mod_noop,
    lemma_div_multiples_vanish,
    lemma_div_denominator,
    lemma_small_mod,
};
use crate::arith::{is_prime, lemma_trailing_zeros_split};
use crate::factor::{is_factorization, no_factor_below, lemma_no_factor_to_root_prime};
use crate::fermat::{lemma_fermat_unit, lemma_square_roots_of_one};
use crate::modular::{modpow, modsquare};

verus! {

/// The witness bases: the twelve smallest primes. Together they make the
/// strong probable prime test exact for every n below 3.3 * 10^24, which
/// covers every 64-bit integer.
pub open spec fn witnesses() -> Seq<u64> {
    seq![2u64, 3, 5, 7, 11, 13, 17, 19, 23, 29, 31, 37]
}

/// The number of factors of two in `m` (zero for zero).
pub open spec fn twos(m: nat) -> nat
    decreases m,
{
    if m == 0 || m % 2 == 1 {
        0
    } else {
        1 + twos(m / 2)
    }
}

/// `m` with every factor of two divided out.
pub open spec fn odd_part(m: nat) -> nat {
    m / pow2(twos(m))
}

/// `n` is a strong probable prime to base `a`: writing `n - 1 = d * 2^s`
/// with `d` odd, either `a^d = 1 (mod n)` or `a^(d * 2^r) = n - 1 (mod n)`
/// for some `r < s`.
pub open spec fn strong_probable_prime(n: nat, a: nat) -> bool {
    let s = twos((n - 1) as nat);
    let d = odd_part((n - 1) as nat);
    pow(a as int, d) % (n as int) == 1 || exists|r: nat|
        r < s && #[trigger] (pow(a as int, d * pow2(r)) % (n as int)) == n - 1
}

/// The verdict of the witnesses `ws`, taken in order: the first that divides
/// `n` decides, `n` being prime exactly when it is that witness; otherwise `n`
/// must be a strong probable prime to every one of them.
pub open spec fn passes_witnesses(n: nat, ws: Seq<u64>) -> bool
    decreases ws.len(),
{
    if ws.len() == 0 {
        true
    } else if n % (ws[0] as nat) == 0 {
        n == ws[0]
    } else {
        strong_probable_prime(n, ws[0] as nat) && passes_witnesses(n, ws.drop_first())
    }
}

/// The verdict of the deterministic Miller-Rabin test on `n`.
pub open spec fn miller_rabin_spec(n: nat) -> bool {
    passes_witnesses(n, witnesses())
}

/// An odd `d` times `2^t` has exactly `t` factors of two, and `d` as its odd
/// part.
proof fn lemma_twos_of(m: nat, d: nat, t: nat)
    requires
        d % 2 == 1,
        m == d * pow2(t),
    ensures
        twos(m) == t,
        odd_part(m) == d,
    decreases t,
{
    lemma_pow2_pos(t);
    if t == 0 {
        lemma_pow0(2);
        assert(pow2(0) == 1);
        assert(m == d) by (nonlinear_arith)
            requires
                m == d * pow2(t),
                pow2(t) == 1,
        ;
    } else {
        lemma_pow2_unfold(t);
        let h: nat = d * pow2((t - 1) as nat);
        assert(m == 2 * h && m > 0) by (nonlinear_arith)
            requires
                m == d * pow2(t),
                pow2(t) == 2 * pow2((t - 1) as nat),
                h == d * pow2((t - 1) as nat),
                d >= 1,
                pow2(t) > 0,
        ;
        lemma_twos_of(h, d, (t - 1) as nat);
        assert(m / 2 == h);
    }
    lemma_div_multiples_vanish(d as int, pow2(t) as int);
    assert(m == pow2(t) * d) by (nonlinear_arith)
        requires
            m == d * pow2(t),
    ;
}

/// Every positive `m` is its odd part times two to the number of its factors
/// of two.
proof fn lemma_twos_split(m: nat)
    requires
        m > 0,
    ensures
        m == odd_part(m) * pow2(twos(m)),
        odd_part(m) % 2 == 1,
    decreases m,
{
    lemma_pow0(2);
    if m % 2 == 1 {
        assert(pow2(0) == 1);
        assert(m / 1 == m);
        assert(m == m * pow2(0)) by (nonlinear_arith)
            requires
                pow2(0) == 1,
        ;
    } else {
        let h: nat = m / 2;
        lemma_twos_split(h);
        let t: nat = twos(h);
        assert(twos(m) == t + 1);
        lemma_pow2_unfold(t + 1);
        lemma_pow2_pos(t);
        lemma_div_denominator(m as int, 2, pow2(t) as int);
        assert(odd_part(m) == odd_part(h));
        assert(m == odd_part(h) * pow2(t + 1)) by (nonlinear_arith)
            requires
                m == 2 * h,
                h == odd_part(h) * pow2(t),
                pow2(t + 1) == 2 * pow2(t),
        ;
    }
}

/// Walking down the repeated squares of `a^d` modulo a prime `p`: if
/// `a^(d * 2^r)` is one, then `a^d` is one or some `a^(d * 2^j)`, `j < r`, is
/// `p - 1`, since one has no square roots modulo `p` but `1` and `p - 1`.
proof fn lemma_descend(p: nat, a: nat, d: nat, s: nat, r: nat)
    requires
        is_prime(p),
        r <= s,
        pow(a as int, d * pow2(r)) % (p as int) == 1,
    ensures
        pow(a as int, d) % (p as int) == 1 || exists|j: nat|
            j < s && #[trigger] (pow(a as int, d * pow2(j)) % (p as int)) == p - 1,
    decreases r,
{
    lemma_pow0(2);
    if r == 0 {
        assert(d * pow2(0) == d) by (nonlinear_arith)
            requires
                pow2(0) == 1,
        ;
    } else {
        let j: nat = (r - 1) as nat;
        let e: nat = d * pow2(j);
        lemma_square_power(a as int, e, p as int);
        lemma_pow2_unfold(r);
        assert(d * pow2(r) == 2 * e) by (nonlinear_arith)
            requires
                pow2(r) == 2 * pow2(j),
                e == d * pow2(j),
        ;
        let y: int = pow(a as int, e) % (p as int);
        assert(0 <= y < p);
        lemma_square_roots_of_one(p, y as nat);
        if y == 1 {
            lemma_descend(p, a, d, s, j);
        } else {
            assert(pow(a as int, d * pow2(j)) % (p as int) == p - 1);
        }
    }
}

/// Every prime `p` is a strong probable prime to every base `a` that it does
/// not divide.
pub proof fn lemma_prime_is_strong_probable_prime(p: nat, a: nat)
    requires
        is_prime(p),
        a % p != 0,
    ensures
        strong_probable_prime(p, a),
{
    let m: nat = (p - 1) as nat;
    lemma_twos_split(m);
    lemma_fermat_unit(p, a);
    lemma_descend(p, a, odd_part(m), twos(m), twos(m));
}

/// An odd number below 49 that neither 3 nor 5 divides, from 7 on, is prime.
proof fn lemma_small_prime(w: nat)
    requires
        7 <= w < 49,
        w % 2 != 0,
        w % 3 != 0,
        w % 5 != 0,
    ensures
        is_prime(w),
{
    assert forall|k: nat| 2 <= k < 7 implies #[trigger] (w % k) != 0 by {
        assert(k == 2 || k == 3 || k == 4 || k == 5 || k == 6);
    }
    assert(no_factor_below(w, 7));
    lemma_no_factor_to_root_prime(w, 7);
}

/// Every witness base is prime.
proof fn lemma_witnesses_prime()
    ensures
        forall|i: int| 0 <= i < witnesses().len() ==> is_prime(#[trigger] witnesses()[i] as nat),
{
    assert(is_prime(3)) by {
        assert forall|k: nat| 2 <= k < 3 implies #[trigger] (3nat % k) != 0 by {
            assert(k == 2);
        }
    }
    assert(is_prime(5)) by {
        assert forall|k: nat| 2 <= k < 5 implies #[trigger] (5nat % k) != 0 by {
            assert(k == 2 || k == 3 || k == 4);
        }
    }
    lemma_small_prime(7);
    lemma_small_prime(11);
    lemma_small_prime(13);
    lemma_small_prime(17);
    lemma_small_prime(19);
    lemma_small_prime(23);
    lemma_small_prime(29);
    lemma_small_prime(31);
    lemma_small_prime(37);
    assert forall|i: int| 0 <= i < witnesses().len() implies is_prime(#[trigger] witnesses()[i] as nat) by {
        assert(is_prime(2));
    }
}

/// A prime passes every prime witness in `ws`.
proof fn lemma_prime_passes(n: nat, ws: Seq<u64>)
    requires
        is_prime(n),
        forall|i: int| 0 <= i < ws.len() ==> is_prime(#[trigger] ws[i] as nat),
    ensures
        passes_witnesses(n, ws),
    decreases ws.len(),
{
    if ws.len() > 0 {
        let w: nat = ws[0] as nat;
        assert(is_prime(w));
        if n % w == 0 {
            if w > n {
                lemma_small_mod(n, w);
            }
            assert(n == w);
        } else {
            if w % n == 0 {
                if n > w {
                    lemma_small_mod(w, n);
                }
                assert(n != w) by {
                    if n == w {
                        assert(n % n == 0);
                    }
                }
                assert(false);
            }
            lemma_prime_is_strong_probable_prime(n, w);
            assert forall|i: int| 0 <= i < ws.drop_first().len() implies is_prime(
                #[trigger] ws.drop_first()[i] as nat,
            ) by {
                assert(ws.drop_first()[i] == ws[i + 1]);
            }
            lemma_prime_passes(n, ws.drop_first());
        }
    }
}

/// Every prime is accepted by the Miller-Rabin test: a "composite" verdict
/// is always right.
pub proof fn lemma_primes_pass_miller_rabin(n: nat)
    requires
        is_prime(n),
    ensures
        miller_rabin_spec(n),
{
    lemma_witnesses_prime();
    lemma_prime_passes(n, witnesses());
}

/// Every prime of a factorization is accepted by the Miller-Rabin test.
pub proof fn lemma_factorization_primes_pass(fs: Seq<(u64, u64)>)
    requires
        is_factorization(fs),
    ensures
        forall|i: int| 0 <= i < fs.len() ==> miller_rabin_spec(#[trigger] fs[i].0 as nat),
{
    assert forall|i: int| 0 <= i < fs.len() implies miller_rabin_spec(#[trigger] fs[i].0 as nat) by {
        lemma_primes_pass_miller_rabin(fs[i].0 as nat);
    }
}

/// Squaring `a^e mod n` modulo `n` gives `a^(2e) mod n`.
proof fn lemma_square_power(a: int, e: nat, n: int)
    requires
        n > 0,
    ensures
        ((pow(a, e) % n) * (pow(a, e) % n)) % n == pow(a, 2 * e) % n,
{
    lemma_mul_mod_noop(pow(a, e), pow(a, e), n);
    lemma_pow_adds(a, e, e);
    assert(e + e == 2 * e);
}

/// One witness's round: whether `n` is a strong probable prime to base `a`,
/// given `n - 1 == d * 2^s` with `d` odd and `s >= 1`.
fn witness_round(n: u64, a: u64, d: u64, s: u64) -> (r: bool)
    requires
        n >= 3,
        d % 2 == 1,
        s >= 1,
        (n - 1) as nat == (d as nat) * pow2(s as nat),
    ensures
        r == strong_probable_prime(n as nat, a as nat),
{
    proof {
        lemma_twos_of((n - 1) as nat, d as nat, s as nat);
        lemma_pow0(2);
    }
    let mut x: u64 = modpow(a, d, n);
    assert(pow2(0) == 1);
    assert((d as nat) * pow2(0) == d) by (nonlinear_arith)
        requires
            pow2(0) == 1,
    ;
    if x == 1 || x == n - 1 {
        return true;
    }
    let mut i: u64 = s - 1;
    let ghost mut j: nat = 0;
    while i > 0
        invariant
            n >= 3,
            i + j == s - 1,
            x == pow(a as int, (d as nat) * pow2(j)) % (n as int),
            pow(a as int, d as nat) % (n as int) != 1,
            twos((n - 1) as nat) == s,
            odd_part((n - 1) as nat) == d,
            forall|r: nat| r <= j ==> #[trigger] (pow(a as int, (d as nat) * pow2(r)) % (n as int)) != n - 1,
        decreases i,
    {
        let ghost e: nat = (d as nat) * pow2(j);
        x = modsquare(x, n);
        proof {
            lemma_square_power(a as int, e, n as int);
            lemma_pow2_unfold(j + 1);
            assert((d as nat) * pow2(j + 1) == 2 * e) by (nonlinear_arith)
                requires
                    pow2(j + 1) == 2 * pow2(j),
                    e == (d as nat) * pow2(j),
            ;
            j = j + 1;
        }
        if x == n - 1 {
            return true;
        }
        i = i - 1;
    }
    false
}

/// Deterministic Miller-Rabin primality test of `number >= 2`: each witness in
/// turn either divides `number`, which then is prime exactly when it is that
/// witness, or must find `number` a strong probable prime. The first witness
/// that fails decides "composite".
pub fn miller_rabin(number: u64) -> (r: bool)
    requires
        number >= 2,
    ensures
        r == miller_rabin_spec(number as nat),
{
    let m: u64 = number - 1;
    let s: u64 = m.trailing_zeros() as u64;
    proof {
        lemma_trailing_zeros_split(m);
    }
    let d: u64 = m >> s;
    let ws: [u64; 12] = [2, 3, 5, 7, 11, 13, 17, 19, 23, 29, 31, 37];
    let mut i: usize = 0;
    assert(witnesses().subrange(0, 12) =~= witnesses());
    while i < 12
        invariant
            ws@ == witnesses(),
            i <= 12,
            number >= 2,
            m == number - 1,
            miller_rabin_spec(number as nat) == passes_witnesses(number as nat, witnesses().subrange(i as int, 12)),
            i > 0 ==> number % 2 == 1,
            m as nat == (d as nat) * pow2(s as nat),
            d % 2 == 1,
        decreases 12 - i,
    {
        let witness: u64 = ws[i];
        proof {
            assert(witnesses().subrange(i as int, 12).drop_first() =~= witnesses().subrange(i + 1, 12));
        }
        if number % witness == 0 {
            return number == witness;
        }
        proof {
            if s == 0 {
                lemma_pow0(2);
                assert(m as nat == d) by (nonlinear_arith)
                    requires
                        m as nat == (d as nat) * pow2(s as nat),
                        pow2(s as nat) == 1,
                ;
            }
        }
        if !witness_round(number, witness, d, s) {
            return false;
        }
        i = i + 1;
    }
    assert(witnesses().subrange(12, 12).len() == 0);
    true
}

} // verus!
