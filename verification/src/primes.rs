//! Prime bucket counts.
//!
//! The hash map keeps its bucket count prime so that quadratic probing
//! reaches enough distinct buckets (see [`crate::probe`]).  The search for
//! the next prime is delegated to the `primal` crate's sieve, which covers
//! every bucket count this crate ever grows to.

use vstd::prelude::*;

verus! {

/// Largest prime the sieve below can return; also the largest bucket count
/// a map can ever have.
pub const MAX_PRIME: usize = 999_983;

/// `p` has no divisor strictly between 1 and itself.
pub open spec fn is_prime(p: int) -> bool {
    &&& 2 <= p
    &&& forall|d: int| 2 <= d < p ==> #[trigger] (p % d) != 0
}

/// Relies on `primal::Sieve::primes_from`: an iterator over the primes of
/// the sieve that are `>= n`, in increasing order.  The sieve covers at
/// least `1_000_000`, and `999_983` is the largest prime below that bound,
/// so for `n <= 999_983` the first prime yielded exists, is the smallest
/// prime `>= n`, and is at most `999_983`.
#[verifier::external_body]
pub(crate) fn next_prime_at_least(n: usize) -> (r: usize)
    requires
        n <= MAX_PRIME,
    ensures
        n <= r <= MAX_PRIME,
        is_prime(r as int),
        forall|m: int| n <= m < r ==> !is_prime(m),
{
    primal::Sieve::new(1_000_000).primes_from(n).next().unwrap()
}

} // verus!
