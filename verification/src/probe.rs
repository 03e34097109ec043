//! Quadratic probing.
//!
//! For a 32-bit hash `h` and a bucket count `n`, the probe sequence visits
//! bucket `(h + i*i) % n` at step `i`.  When `n` is prime, the first
//! `n/2 + 1` steps land on pairwise distinct buckets, so whenever at most
//! `n/2` buckets are in use, some probed bucket is unused.  That counting
//! argument is what lets the map place every new key without exhausting the
//! probe sequence.

use vstd::prelude::*;
use vstd::arithmetic::div_mod::{
    lemma_fundamental_div_mod, lemma_mod_equivalence, lemma_mod_multiples_basic, lemma_small_mod,
};
use vstd::set_lib::{lemma_int_range, lemma_len_subset, set_int_range};
use crate::primes::{is_prime, MAX_PRIME};

verus! {

/// The bucket probed at step `i` for hash `h` in a table of `n` buckets.
pub open spec fn probe_index(h: u32, i: int, n: int) -> int
    recommends
        n > 0,
{
    (h + i * i) % n
}

/// Computes `probe_index` without overflow: the hash fits in 32 bits and a
/// step number never exceeds the largest bucket count.
pub(crate) fn probe_slot(h: u32, i: usize, n: usize) -> (r: usize)
    requires
        0 < n <= MAX_PRIME,
        i <= n,
    ensures
        r as int == probe_index(h, i as int, n as int),
        r < n,
{
    assert((i as u64) * (i as u64) <= 999_983u64 * 999_983u64) by (nonlinear_arith)
        requires
            i <= 999_983;
    let q: u64 = ((h as u64) + (i as u64) * (i as u64)) % (n as u64);
    q as usize
}

/// A prime has no zero divisors: the product of two numbers strictly
/// between 0 and `p` is not a multiple of `p`.  Proved by descent: if
/// `a * b` were a multiple, so would `(p % a) * b` be, with `p % a`
/// nonzero (as `p` is prime) and smaller than `a`.
proof fn lemma_prime_no_zero_divisors(p: int, a: int, b: int)
    requires
        is_prime(p),
        1 <= a < p,
        1 <= b < p,
    ensures
        (a * b) % p != 0,
    decreases a,
{
    if (a * b) % p == 0 {
        let k = (a * b) / p;
        lemma_fundamental_div_mod(a * b, p);
        assert(a * b == k * p);
        if a == 1 {
            assert(1 * b == b) by (nonlinear_arith);
            lemma_small_mod(b as nat, p as nat);
            assert(false);
        } else {
            let q = p / a;
            let r = p % a;
            lemma_fundamental_div_mod(p, a);
            assert(p == q * a + r);
            // `p` prime and `2 <= a < p` rule out `r == 0`.
            assert(r != 0);
            assert(r * b == (b - q * k) * p) by (nonlinear_arith)
                requires
                    p == q * a + r,
                    a * b == k * p;
            lemma_mod_multiples_basic(b - q * k, p);
            assert((r * b) % p == 0);
            lemma_prime_no_zero_divisors(p, r, b);
        }
    }
}

/// Distinct step numbers in the first half of the probe sequence have
/// distinct squares modulo a prime `p`.
proof fn lemma_squares_distinct_mod(p: int, i: int, j: int)
    requires
        is_prime(p),
        0 <= i < j,
        j <= p / 2,
    ensures
        (i * i) % p != (j * j) % p,
{
    if (i * i) % p == (j * j) % p {
        lemma_mod_equivalence(j * j, i * i, p);
        assert((j * j - i * i) % p == 0);
        let a = j - i;
        let b = j + i;
        assert(2 * j <= p);
        assert(a * b == j * j - i * i) by (nonlinear_arith)
            requires
                a == j - i,
                b == j + i;
        assert(1 <= a < p);
        assert(1 <= b < p);
        lemma_prime_no_zero_divisors(p, a, b);
        assert(false);
    }
}

/// Distinct step numbers in the first half of the probe sequence land on
/// distinct buckets when the bucket count is prime.
pub proof fn lemma_probe_distinct(p: int, h: u32, i: int, j: int)
    requires
        is_prime(p),
        0 <= i < j,
        j <= p / 2,
    ensures
        probe_index(h, i, p) != probe_index(h, j, p),
{
    if probe_index(h, i, p) == probe_index(h, j, p) {
        lemma_mod_equivalence(h + j * j, h + i * i, p);
        assert((h + j * j - (h + i * i)) % p == 0);
        assert((j * j - i * i) % p == 0);
        lemma_mod_equivalence(j * j, i * i, p);
        lemma_squares_distinct_mod(p, i, j);
        assert(false);
    }
}

/// The image of a finite set under an injective function has the same
/// cardinality as the set.
pub proof fn lemma_injective_map_len<A, B>(s: Set<A>, f: spec_fn(A) -> B)
    requires
        s.finite(),
        forall|x: A, y: A|
            s.contains(x) && s.contains(y) && #[trigger] f(x) == #[trigger] f(y) ==> x == y,
    ensures
        s.map(f).finite(),
        s.map(f).len() == s.len(),
    decreases s.len(),
{
    broadcast use vstd::set::group_set_axioms;
    broadcast use vstd::set_lib::lemma_set_empty_equivalency_len;

    if s.len() == 0 {
        s.lemma_len0_is_empty();
        assert forall|b: B| !(#[trigger] s.map(f).contains(b)) by {
            if s.map(f).contains(b) {
                let a = choose|a: A| s.contains(a) && f(a) == b;
            }
        }
        assert(s.map(f) =~= Set::<B>::empty());
    } else {
        if forall|x: A| !(#[trigger] s.contains(x)) {
            assert(s =~= Set::<A>::empty());
            assert(false);
        }
        let x = choose|x: A| s.contains(x);
        assert(s.contains(x));
        let s2 = s.remove(x);
        assert(s2.len() == s.len() - 1);
        lemma_injective_map_len(s2, f);
        assert forall|b: B| #[trigger] s.map(f).contains(b) implies s2.map(f).insert(f(x)).contains(
            b,
        ) by {
            let a = choose|a: A| s.contains(a) && f(a) == b;
            if a != x {
                assert(s2.contains(a));
            }
        }
        assert forall|b: B| s2.map(f).insert(f(x)).contains(b) implies #[trigger] s.map(
            f,
        ).contains(b) by {
            if b == f(x) {
                assert(s.contains(x));
            } else {
                let a = choose|a: A| s2.contains(a) && f(a) == b;
                assert(s.contains(a));
            }
        }
        assert(s.map(f) =~= s2.map(f).insert(f(x)));
        if s2.map(f).contains(f(x)) {
            let a = choose|a: A| s2.contains(a) && f(a) == f(x);
            assert(s.contains(a));
            assert(false);
        }
    }
}

/// If at most `p/2` buckets of a prime-sized table are in use, one of the
/// first `p/2 + 1` probe steps lands on a bucket outside the used set.
pub proof fn lemma_probe_hits_unused(p: int, h: u32, used: Set<int>)
    requires
        is_prime(p),
        used.finite(),
        used.len() <= p / 2,
    ensures
        exists|i: int|
            0 <= i <= p / 2 && !used.contains(#[trigger] probe_index(h, i, p)),
{
    if forall|i: int| 0 <= i <= p / 2 ==> used.contains(#[trigger] probe_index(h, i, p)) {
        let range = set_int_range(0, p / 2 + 1);
        lemma_int_range(0, p / 2 + 1);
        let f = |i: int| probe_index(h, i, p);
        assert forall|x: int, y: int|
            range.contains(x) && range.contains(y) && #[trigger] f(x) == #[trigger] f(y)
                implies x == y by {
            if x < y {
                lemma_probe_distinct(p, h, x, y);
            } else if y < x {
                lemma_probe_distinct(p, h, y, x);
            }
        }
        lemma_injective_map_len(range, f);
        let image = range.map(f);
        assert forall|b: int| #[trigger] image.contains(b) implies used.contains(b) by {
            let i = choose|i: int| range.contains(i) && f(i) == b;
            assert(used.contains(probe_index(h, i, p)));
        }
        lemma_len_subset(image, used);
        assert(false);
    }
}

} // verus!
