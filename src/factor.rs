use vstd::prelude::*;
use vstd::arithmetic::power::{pow, lemma_pow0, lemma_pow1, lemma_pow_adds, lemma_pow_positive};
use vstd::arithmetic::power2::{pow2, lemma_pow2};
use vstd::arithmetic::div_mod::{lemma_fundamental_div_mod, lemma_mod_multiples_basic};
use crate::arith::{is_prime, lemma_trailing_zeros_split};

verus! {

/// The number a sequence of `(prime, exponent)` pairs stands for: the product
/// of `prime^exponent` over all pairs.
pub open spec fn product(fs: Seq<(u64, u64)>) -> int
    decreases fs.len(),
{
    if fs.len() == 0 {
        1
    } else {
        product(fs.drop_last()) * pow(fs.last().0 as int, fs.last().1 as nat)
    }
}

/// Pairs whose primes are prime and strictly increasing, and whose exponents
/// are at least one.
pub open spec fn is_factorization(fs: Seq<(u64, u64)>) -> bool {
    &&& forall|i: int| 0 <= i < fs.len() ==> is_prime(#[trigger] fs[i].0 as nat) && fs[i].1 >= 1
    &&& forall|i: int, j: int| 0 <= i < j < fs.len() ==> #[trigger] fs[i].0 < #[trigger] fs[j].0
}

/// No integer in `[2, bound)` divides `n`.
pub open spec fn no_factor_below(n: nat, bound: nat) -> bool {
    forall|k: nat| 2 <= k < bound ==> #[trigger] (n % k) != 0
}

/// The wheel's residues modulo 30, one for each position: the numbers in
/// `[1, 30)` prime to 2, 3 and 5, listed from 7 on.
pub open spec fn wheel_residue(index: int) -> int {
    if index == 0 {
        7
    } else if index == 1 {
        11
    } else if index == 2 {
        13
    } else if index == 3 {
        17
    } else if index == 4 {
        19
    } else if index == 5 {
        23
    } else if index == 6 {
        29
    } else {
        1
    }
}

/// The gap from each wheel residue to the next one.
pub open spec fn wheel_step(index: int) -> int {
    if index == 0 || index == 2 || index == 4 {
        4
    } else if index == 5 || index == 7 {
        6
    } else {
        2
    }
}

/// Every integer strictly between two neighbouring wheel positions is a
/// multiple of 2, 3 or 5, and the step lands on the next residue.
proof fn lemma_wheel_skips(d: int, index: int)
    requires
        0 <= index < 8,
        d >= 0,
        d % 30 == wheel_residue(index),
    ensures
        (d + wheel_step(index)) % 30 == wheel_residue((index + 1) % 8),
        forall|k: int| d < k < d + wheel_step(index) ==> #[trigger] (k % 2) == 0 || k % 3 == 0 || k % 5 == 0,
{
    assert forall|k: int| d < k < d + wheel_step(index) implies #[trigger] (k % 2) == 0 || k % 3 == 0 || k % 5 == 0 by {
        let q: int = d / 30;
        assert(d == 30 * q + wheel_residue(index));
        assert(k == 30 * q + wheel_residue(index) + (k - d));
    }
}

/// If `k` divides `a`, it divides every multiple of `a`.
proof fn lemma_divides_multiple(k: int, a: int, c: int)
    requires
        k > 0,
        a % k == 0,
    ensures
        (a * c) % k == 0,
{
    lemma_fundamental_div_mod(a, k);
    let x: int = a / k;
    assert(a * c == (x * c) * k) by (nonlinear_arith)
        requires
            a == k * x + 0,
    ;
    lemma_mod_multiples_basic(x * c, k);
}

/// Divisibility is transitive: `p | k` and `k | n` give `p | n`.
proof fn lemma_divides_trans(p: nat, k: nat, n: nat)
    requires
        p > 0,
        k > 0,
        k % p == 0,
        n % k == 0,
    ensures
        n % p == 0,
{
    lemma_fundamental_div_mod(n as int, k as int);
    lemma_divides_multiple(p as int, k as int, (n / k) as int);
    assert(n as int == k * (n / k) as int);
}

/// A divisor of `n` has no factor below a bound that `n` has none below.
proof fn lemma_no_factor_of_divisor(n: nat, c: nat, bound: nat)
    requires
        no_factor_below(n * c, bound),
    ensures
        no_factor_below(n, bound),
{
    assert forall|k: nat| 2 <= k < bound implies #[trigger] (n % k) != 0 by {
        if n % k == 0 {
            lemma_divides_multiple(k as int, n as int, c as int);
            assert(((n * c) as nat) % k == 0);
        }
    }
}

/// `p^e` exceeds `e` for `p >= 2`.
proof fn lemma_pow_exceeds(p: int, e: nat)
    requires
        p >= 2,
    ensures
        pow(p, e) > e,
    decreases e,
{
    if e == 0 {
        lemma_pow0(p);
    } else {
        lemma_pow_exceeds(p, (e - 1) as nat);
        lemma_pow_adds(p, (e - 1) as nat, 1);
        lemma_pow1(p);
        assert(pow(p, (e - 1) as nat) * p > e) by (nonlinear_arith)
            requires
                pow(p, (e - 1) as nat) > e - 1,
                p >= 2,
                e >= 1,
        ;
    }
}

/// Appending a pair multiplies the product by `prime^exponent`.
proof fn lemma_product_push(fs: Seq<(u64, u64)>, f: (u64, u64))
    ensures
        product(fs.push(f)) == product(fs) * pow(f.0 as int, f.1 as nat),
{
    assert(fs.push(f).drop_last() =~= fs);
}

/// Moving `p^e` from what is left into the pairs keeps the total; with `e`
/// zero, what is left does not change.
proof fn lemma_move_power(fs: Seq<(u64, u64)>, f: (u64, u64), rest: int, r: int)
    requires
        r * pow(f.0 as int, f.1 as nat) == rest,
    ensures
        product(fs.push(f)) * r == product(fs) * rest,
        f.1 == 0 ==> r == rest,
{
    lemma_product_push(fs, f);
    lemma_pow0(f.0 as int);
    let a: int = product(fs);
    let q: int = pow(f.0 as int, f.1 as nat);
    assert((a * q) * r == a * (r * q)) by (nonlinear_arith);
}

/// Divides every factor `p` out of `n`: returns `rest` and `power` with
/// `n == rest * p^power` and `p` no longer dividing `rest`.
fn divide_out(n: u64, p: u64) -> (r: (u64, u64))
    requires
        n >= 1,
        p >= 2,
    ensures
        r.0 >= 1,
        r.0 as int * pow(p as int, r.1 as nat) == n,
        r.0 % p != 0,
{
    let mut rest: u64 = n;
    let mut power: u64 = 0;
    proof {
        lemma_pow0(p as int);
    }
    while rest % p == 0
        invariant
            p >= 2,
            rest >= 1,
            rest as int * pow(p as int, power as nat) == n,
        decreases rest,
    {
        let ghost old_rest: int = rest as int;
        let ghost old_power: nat = power as nat;
        proof {
            lemma_pow_positive(p as int, old_power);
            lemma_pow_exceeds(p as int, old_power);
            assert(pow(p as int, old_power) <= n) by (nonlinear_arith)
                requires
                    rest >= 1,
                    rest as int * pow(p as int, old_power) == n,
                    pow(p as int, old_power) > 0,
            ;
        }
        rest = rest / p;
        power = power + 1;
        proof {
            lemma_fundamental_div_mod(old_rest, p as int);
            lemma_pow_adds(p as int, old_power, 1);
            lemma_pow1(p as int);
            assert(rest as int * pow(p as int, power as nat) == n) by (nonlinear_arith)
                requires
                    old_rest == p * rest + 0,
                    pow(p as int, power as nat) == pow(p as int, old_power) * p,
                    old_rest * pow(p as int, old_power) == n,
            ;
            assert(rest >= 1 && rest < old_rest) by (nonlinear_arith)
                requires
                    old_rest == p * rest + 0,
                    old_rest >= 1,
                    p >= 2,
            ;
        }
    }
    (rest, power)
}

/// A divisor `d >= 2` of `n` is prime when `n` has no factor below `d`.
proof fn lemma_least_divisor_prime(n: nat, d: nat)
    requires
        d >= 2,
        n % d == 0,
        no_factor_below(n, d),
    ensures
        is_prime(d),
{
    assert forall|k: nat| 2 <= k < d implies #[trigger] (d % k) != 0 by {
        if d % k == 0 {
            lemma_fundamental_div_mod(n as int, d as int);
            lemma_divides_multiple(k as int, d as int, (n / d) as int);
            assert(n as int == d * (n / d) as int);
            assert(n % k == 0);
        }
    }
}

/// An `n > 1` with no factor below `d`, where `d * d > n`, is prime.
pub proof fn lemma_no_factor_to_root_prime(n: nat, d: nat)
    requires
        n > 1,
        d * d > n,
        no_factor_below(n, d),
    ensures
        is_prime(n),
{
    assert forall|k: nat| 2 <= k < n implies #[trigger] (n % k) != 0 by {
        if n % k == 0 {
            let c: nat = n / k;
            lemma_fundamental_div_mod(n as int, k as int);
            assert(n == k * c);
            if k >= d {
                assert(c < d && c >= 2) by (nonlinear_arith)
                    requires
                        n == k * c,
                        k >= d,
                        d * d > n,
                        k < n,
                        n > 1,
                        k >= 2,
                ;
                lemma_mod_multiples_basic(k as int, c as int);
                assert(n % c == 0);
            }
        }
    }
}

/// `n > 1` with no factor below `d` is at least `d`.
proof fn lemma_no_factor_at_least(n: nat, d: nat)
    requires
        n > 1,
        no_factor_below(n, d),
    ensures
        n >= d,
{
    if n < d {
        assert(n % n == 0);
    }
}

/// The prime factorization of `num`: pairs `(prime, exponent)` with the primes
/// strictly increasing and each exponent at least one, whose product is `num`.
/// Zero and one give no pairs.
///
/// Twos go in one shift by the trailing-zero count; threes and fives by
/// division; larger divisors walk a wheel of period 30 that skips every
/// multiple of 2, 3 and 5, and stop once a divisor's square exceeds what is
/// left, which is then prime or one.
pub fn factor(num: u64) -> (factors: Vec<(u64, u64)>)
    ensures
        num <= 1 ==> factors@.len() == 0,
        num >= 1 ==> product(factors@) == num,
        is_factorization(factors@),
{
    let mut factors: Vec<(u64, u64)> = Vec::new();
    if num <= 1 {
        return factors;
    }
    let ghost n0: int = num as int;
    let mut rest: u64 = num;

    let power: u64 = rest.trailing_zeros() as u64;
    proof {
        lemma_trailing_zeros_split(rest);
        lemma_pow2(power as nat);
        lemma_pow0(2);
        assert(power == 0 ==> rest >> power == rest) by (bit_vector);
    }
    if power > 0 {
        rest = rest >> power;
        proof {
            lemma_product_push(factors@, (2, power));
            assert(product(factors@) == 1);
            assert(pow(2, power as nat) * rest == rest * pow(2, power as nat)) by (nonlinear_arith);
        }
        factors.push((2, power));
    }
    assert(product(factors@) * rest == n0);
    assert(rest % 2 == 1);
    assert(is_prime(2));
    assert(is_factorization(factors@) && forall|i: int| 0 <= i < factors@.len() ==> #[trigger] factors@[i].0 < 3);

    let (r3, p3) = divide_out(rest, 3);
    proof {
        assert(no_factor_below(rest as nat, 3));
        lemma_pow_positive(3, p3 as nat);
        assert((r3 as nat * (pow(3, p3 as nat) as nat)) as nat == rest as nat);
        lemma_no_factor_of_divisor(r3 as nat, pow(3, p3 as nat) as nat, 3);
        assert(no_factor_below(r3 as nat, 4));
        lemma_move_power(factors@, (3, p3), rest as int, r3 as int);
    }
    assert(is_prime(3)) by {
        assert forall|k: nat| 2 <= k < 3 implies #[trigger] (3nat % k) != 0 by {
            assert(k == 2);
        }
    }
    if p3 > 0 {
        factors.push((3, p3));
    }
    assert(is_factorization(factors@) && forall|i: int| 0 <= i < factors@.len() ==> #[trigger] factors@[i].0 < 5);
    rest = r3;
    assert(product(factors@) * rest == n0);

    let (r5, p5) = divide_out(rest, 5);
    proof {
        assert(no_factor_below(rest as nat, 4));
        lemma_pow_positive(5, p5 as nat);
        assert((r5 as nat * (pow(5, p5 as nat) as nat)) as nat == rest as nat);
        lemma_no_factor_of_divisor(r5 as nat, pow(5, p5 as nat) as nat, 4);
        if r5 % 4 == 0 {
            lemma_divides_trans(2, 4, r5 as nat);
        }
        if r5 % 6 == 0 {
            lemma_divides_trans(2, 6, r5 as nat);
        }
        assert(no_factor_below(r5 as nat, 7));
        lemma_move_power(factors@, (5, p5), rest as int, r5 as int);
    }
    assert(is_prime(5)) by {
        assert forall|k: nat| 2 <= k < 5 implies #[trigger] (5nat % k) != 0 by {
            assert(k == 2 || k == 3 || k == 4);
        }
    }
    if p5 > 0 {
        factors.push((5, p5));
    }
    assert(is_factorization(factors@) && forall|i: int| 0 <= i < factors@.len() ==> #[trigger] factors@[i].0 < 7);
    rest = r5;
    assert(product(factors@) * rest == n0);

    let increments: [u64; 8] = [4, 2, 4, 2, 4, 6, 2, 6];
    let mut divisor: u64 = 7;
    let mut index: usize = 0;
    while divisor <= rest / divisor
        invariant
            rest >= 1,
            product(factors@) * rest == n0,
            is_factorization(factors@),
            forall|i: int| 0 <= i < factors@.len() ==> #[trigger] factors@[i].0 < divisor,
            no_factor_below(rest as nat, divisor as nat),
            7 <= divisor <= 0x1_0000_0006,
            index < 8,
            divisor % 30 == wheel_residue(index as int),
            increments@ == seq![4u64, 2, 4, 2, 4, 6, 2, 6],
        decreases 0x1_0000_0006 - divisor,
    {
        proof {
            lemma_fundamental_div_mod(rest as int, divisor as int);
            assert(divisor < 0x1_0000_0000) by (nonlinear_arith)
                requires
                    divisor <= rest / divisor,
                    rest == divisor * (rest / divisor) + rest % divisor,
                    rest % divisor >= 0,
                    rest <= u64::MAX,
                    divisor >= 7,
            ;
        }
        let (r, power) = divide_out(rest, divisor);
        proof {
            lemma_pow0(divisor as int);
            lemma_pow_positive(divisor as int, power as nat);
            assert((r as nat * (pow(divisor as int, power as nat) as nat)) as nat == rest as nat);
            lemma_no_factor_of_divisor(r as nat, pow(divisor as int, power as nat) as nat, divisor as nat);
            lemma_move_power(factors@, (divisor, power), rest as int, r as int);
            if power > 0 {
                lemma_pow_positive(divisor as int, (power - 1) as nat);
                lemma_pow_adds(divisor as int, (power - 1) as nat, 1);
                lemma_pow1(divisor as int);
                lemma_mod_multiples_basic(r * pow(divisor as int, (power - 1) as nat), divisor as int);
                assert(rest as int == r * pow(divisor as int, (power - 1) as nat) * divisor)
                    by (nonlinear_arith)
                    requires
                        r * pow(divisor as int, power as nat) == rest,
                        pow(divisor as int, power as nat) == pow(divisor as int, (power - 1) as nat) * divisor,
                ;
                lemma_least_divisor_prime(rest as nat, divisor as nat);
            }
        }
        if power > 0 {
            factors.push((divisor, power));
        }
        rest = r;
        let step: u64 = increments[index];
        proof {
            assert(step == wheel_step(index as int));
            lemma_wheel_skips(divisor as int, index as int);
            assert forall|k: nat| 2 <= k < divisor + step implies #[trigger] ((rest as nat) % k) != 0 by {
                if k > divisor && (rest as nat) % k == 0 {
                    if k % 2 == 0 {
                        lemma_divides_trans(2, k, rest as nat);
                    } else if k % 3 == 0 {
                        lemma_divides_trans(3, k, rest as nat);
                    } else {
                        lemma_divides_trans(5, k, rest as nat);
                    }
                }
            }
        }
        divisor = divisor + step;
        index = if index == 7 { 0 } else { index + 1 };
    }
    proof {
        lemma_fundamental_div_mod(rest as int, divisor as int);
        assert(divisor * divisor > rest) by (nonlinear_arith)
            requires
                divisor > rest / divisor,
                rest == divisor * (rest / divisor) + rest % divisor,
                rest % divisor < divisor,
                divisor >= 7,
        ;
    }
    assert(rest == 1 ==> product(factors@) == n0) by (nonlinear_arith)
        requires
            product(factors@) * rest == n0,
    ;
    if rest > 1 {
        proof {
            lemma_no_factor_to_root_prime(rest as nat, divisor as nat);
            lemma_no_factor_at_least(rest as nat, divisor as nat);
            lemma_pow1(rest as int);
            lemma_move_power(factors@, (rest, 1), rest as int, 1);
        }
        factors.push((rest, 1));
    }
    factors
}

} // verus!
