use vstd::prelude::*;
use vstd::arithmetic::power::{pow, lemma_pow1, lemma_pow0, lemma_pow_adds, lemma_pow_mod_noop, lemma_pow_multiplies};
use vstd::arithmetic::div_mod::{lemma_mod_twice, lemma_mul_mod_noop};

verus! {

/// What `modpow` computes: `base^exponent mod modulus`, except that an
/// exponent of zero gives one whatever the modulus.
pub open spec fn modpow_spec(base: nat, exponent: nat, modulus: nat) -> nat
    recommends
        modulus >= 1,
{
    if exponent == 0 {
        1
    } else {
        (pow(base as int, exponent) % (modulus as int)) as nat
    }
}

/// One round of square-and-multiply keeps `result * base^e` congruent: for
/// an exponent `2k + bit`, `result * base^e` equals
/// `(result * base^bit) * (base * base)^k`.
proof fn lemma_square_and_multiply_step(result: int, base: int, k: nat, bit: nat, m: int)
    requires
        m > 0,
        bit <= 1,
    ensures
        ((if bit == 1 { (result * base) % m } else { result }) * pow((base * base) % m, k)) % m
            == (result * pow(base, 2 * k + bit)) % m,
{
    let r2: int = if bit == 1 { (result * base) % m } else { result };
    lemma_pow_mod_noop(base * base, k, m);
    lemma_pow_multiplies(base, 2, k);
    lemma_pow_adds(base, 1, 1);
    lemma_pow1(base);
    assert(pow(base * base, k) == pow(base, 2 * k));
    lemma_mul_mod_noop(r2, pow((base * base) % m, k), m);
    lemma_mul_mod_noop(r2, pow(base * base, k), m);
    assert((r2 * pow((base * base) % m, k)) % m == (r2 * pow(base, 2 * k)) % m);
    if bit == 1 {
        lemma_mul_mod_noop(result * base, pow(base, 2 * k), m);
        lemma_mul_mod_noop(r2, pow(base, 2 * k), m);
        lemma_mod_twice(result * base, m);
        assert((r2 * pow(base, 2 * k)) % m == ((result * base) * pow(base, 2 * k)) % m);
        lemma_pow_adds(base, 2 * k, 1);
        assert((result * base) * pow(base, 2 * k) == result * pow(base, 2 * k + 1)) by (nonlinear_arith)
            requires
                pow(base, 2 * k + 1) == pow(base, 2 * k) * base,
        ;
    } else {
        lemma_pow0(base);
        assert(2 * k + bit == 2 * k);
    }
}

/// Squares `x` modulo `modulus`, widening to 128 bits so that the product
/// cannot overflow.
pub fn modsquare(x: u64, modulus: u64) -> (r: u64)
    requires
        modulus >= 1,
    ensures
        r == (x as int * x as int) % (modulus as int),
{
    let w: u128 = x as u128;
    assert(w * w <= u128::MAX) by (nonlinear_arith)
        requires
            w <= u64::MAX,
    ;
    let r: u128 = w * w % (modulus as u128);
    r as u64
}

/// Raises `base` to `exponent` modulo `modulus` by square-and-multiply,
/// reading the exponent's bits from the lowest up. An exponent of zero gives
/// one, even where the modulus is one.
pub fn modpow(base: u64, exponent: u64, modulus: u64) -> (r: u64)
    requires
        modulus >= 1,
    ensures
        r == modpow_spec(base as nat, exponent as nat, modulus as nat),
        exponent == 0 ==> r == 1,
        exponent > 0 ==> r < modulus,
{
    if exponent == 0 {
        return 1;
    }
    let ghost m: int = modulus as int;
    let mut e: u64 = exponent;
    let mut result: u128 = 1;
    let modulus: u128 = modulus as u128;
    let mut base_acc: u128 = base as u128;
    assert(1 * pow(base as int, exponent as nat) == pow(base as int, exponent as nat));
    while e > 1
        invariant
            m == modulus,
            modulus <= u64::MAX,
            m >= 1,
            e >= 1,
            result <= u64::MAX,
            base_acc <= u64::MAX,
            (result * pow(base_acc as int, e as nat)) % m == pow(base as int, exponent as nat) % m,
        decreases e,
    {
        let ghost old_result: int = result as int;
        let ghost old_base: int = base_acc as int;
        let ghost old_e: u64 = e;
        assert(result * base_acc <= u128::MAX) by (nonlinear_arith)
            requires
                result <= u64::MAX,
                base_acc <= u64::MAX,
        ;
        assert(base_acc * base_acc <= u128::MAX) by (nonlinear_arith)
            requires
                base_acc <= u64::MAX,
        ;
        if (e & 1) != 0 {
            result = result * base_acc % modulus;
        }
        base_acc = base_acc * base_acc % modulus;
        e = e >> 1;
        proof {
            assert(old_e >> 1 == old_e / 2) by (bit_vector);
            assert((old_e & 1) != 0 <==> old_e % 2 == 1) by (bit_vector);
            let bit: nat = (old_e % 2) as nat;
            assert(old_e == 2 * e + bit);
            lemma_square_and_multiply_step(old_result, old_base, e as nat, bit, m);
        }
    }
    assert(result * base_acc <= u128::MAX) by (nonlinear_arith)
        requires
            result <= u64::MAX,
            base_acc <= u64::MAX,
    ;
    proof {
        lemma_pow1(base_acc as int);
    }
    let r: u128 = result * base_acc % modulus;
    r as u64
}

} // verus!
