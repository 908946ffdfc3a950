use vstd::prelude::*;
use crate::primality::{miller_rabin, miller_rabin_spec};

verus! {

/// Relies on rand's `thread_rng` and `Rng::gen_range(0..len)`: an index drawn
/// from `[0, len)`. `gen_range` panics on an empty range, hence `len > 0`.
#[verifier::external_body]
fn random_index(len: usize) -> (r: usize)
    requires
        len > 0,
    ensures
        r < len,
{
    rand::Rng::gen_range(&mut rand::thread_rng(), 0..len)
}

/// Every number in `[min, max]` that the Miller-Rabin test accepts, in
/// increasing order.
pub fn primes_between(min: u64, max: u64) -> (primes: Vec<u64>)
    requires
        min >= 2 || max < min,
    ensures
        forall|i: int|
            0 <= i < primes@.len() ==> min <= #[trigger] primes@[i] <= max && miller_rabin_spec(
                primes@[i] as nat,
            ),
        forall|i: int, j: int| 0 <= i < j < primes@.len() ==> #[trigger] primes@[i] < #[trigger] primes@[j],
        forall|n: u64| min <= n <= max && miller_rabin_spec(n as nat) ==> #[trigger] primes@.contains(n),
{
    let mut primes: Vec<u64> = Vec::new();
    if max < min {
        return primes;
    }
    let span: u64 = max - min;
    let mut k: u64 = 0;
    while k <= span
        invariant
            min >= 2,
            span == max - min,
            k <= span + 1,
            forall|i: int|
                0 <= i < primes@.len() ==> min <= #[trigger] primes@[i] < min + k && miller_rabin_spec(
                    primes@[i] as nat,
                ),
            forall|i: int, j: int| 0 <= i < j < primes@.len() ==> #[trigger] primes@[i] < #[trigger] primes@[j],
            forall|n: u64| min <= n < min + k && miller_rabin_spec(n as nat) ==> #[trigger] primes@.contains(n),
        decreases span + 1 - k,
    {
        let n: u64 = min + k;
        if miller_rabin(n) {
            let ghost before: Seq<u64> = primes@;
            primes.push(n);
            proof {
                assert forall|x: u64| min <= x < min + k + 1 && miller_rabin_spec(x as nat) implies #[trigger] primes@.contains(x) by {
                    if x == n {
                        assert(primes@[before.len() as int] == n);
                    } else {
                        assert(before.contains(x));
                        let w: int = choose|w: int| 0 <= w < before.len() && before[w] == x;
                        assert(primes@[w] == x);
                    }
                }
            }
        }
        k = k + 1;
    }
    primes
}

/// A number in `[min, max]` that the Miller-Rabin test accepts, picked at
/// random among all such numbers; `None` when there is none.
pub fn rand_prime_between(min: u64, max: u64) -> (r: Option<u64>)
    requires
        min >= 2 || max < min,
    ensures
        r.is_none() <==> forall|n: u64| min <= n <= max ==> !#[trigger] miller_rabin_spec(n as nat),
        r matches Some(p) ==> min <= p <= max && miller_rabin_spec(p as nat),
{
    let primes: Vec<u64> = primes_between(min, max);
    if primes.len() == 0 {
        proof {
            assert forall|n: u64| min <= n <= max implies !#[trigger] miller_rabin_spec(n as nat) by {
                if miller_rabin_spec(n as nat) {
                    assert(primes@.contains(n));
                }
            }
        }
        return None;
    }
    let i: usize = random_index(primes.len());
    let p: u64 = primes[i];
    assert(min <= p <= max && miller_rabin_spec(p as nat));
    Some(p)
}

/// A 64-bit number to test, made from random bits: the top bit and the lowest
/// bit are set, so it is odd and at least `2^63`.
pub fn prime_candidate(bits: u64) -> (r: u64)
    ensures
        r == bits | 0x8000_0000_0000_0001u64,
        r >= 0x8000_0000_0000_0000u64,
        r % 2 == 1,
{
    let r: u64 = bits | 0x8000_0000_0000_0001u64;
    assert(r == bits | 0x8000_0000_0000_0001u64 ==> r >= 0x8000_0000_0000_0000u64 && r % 2 == 1)
        by (bit_vector);
    r
}

} // verus!
