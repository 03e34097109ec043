//! A relocatable open-addressing hash map.
//!
//! `OpenAddressingMap` is a quadratic-probing hash table whose bucket array
//! is a [`CompactVec`] of entries, each entry holding a cached 32-bit hash,
//! a tombstone flag and an optional key/value pair.  Deleted entries stay
//! behind as tombstones so that probe chains remain valid; tombstones are
//! reclaimed only when the table is rebuilt.  The bucket count is always
//! prime, which makes the first half of every probe sequence hit pairwise
//! distinct buckets (see [`crate::probe`]), so a table kept at most half
//! used can always place a new key.
//!
//! The view of a map is the mathematical map from keys to values held by
//! its alive entries.

use vstd::prelude::*;
use vstd::set_lib::{lemma_int_range, lemma_len_subset, lemma_set_subset_finite, set_int_range};
use vstd::std_specs::hash::DefaultHasherAdditionalSpecFns;
use crate::compact::{seq_models, Compact};
use crate::compact_vec::CompactVec;
use crate::primes::{is_prime, next_prime_at_least, MAX_PRIME};
use crate::probe::{lemma_probe_hits_unused, probe_index, probe_slot};
use std::collections::hash_map::DefaultHasher;
use std::hash::Hasher;

verus! {

/// The eight little-endian bytes of a 64-bit key, as written to the hasher.
pub open spec fn le_bytes_of_u64(x: u64) -> Seq<u8> {
    seq![
        (x % 256) as u8,
        ((x / 256) % 256) as u8,
        ((x / 65536) % 256) as u8,
        ((x / 16777216) % 256) as u8,
        ((x / 4294967296) % 256) as u8,
        ((x / 1099511627776) % 256) as u8,
        ((x / 281474976710656) % 256) as u8,
        ((x / 72057594037927936) % 256) as u8,
    ]
}

/// The 32-bit hash of a 64-bit key: the low half of what std's default
/// hasher returns after the key's bytes are written to it.
pub open spec fn spec_hash_u64(x: u64) -> u32 {
    (DefaultHasher::spec_finish(seq![le_bytes_of_u64(x)]) % 0x1_0000_0000) as u32
}

/// Hash a 64-bit key with std's default hasher, truncated to 32 bits.
/// The hasher is deterministic, so the result is a function of the key.
fn hash_u64(x: u64) -> (h: u32)
    ensures
        h == spec_hash_u64(x),
{
    let mut hasher = DefaultHasher::new();
    let bytes: [u8; 8] = [
        (x % 256) as u8,
        ((x / 256) % 256) as u8,
        ((x / 65536) % 256) as u8,
        ((x / 16777216) % 256) as u8,
        ((x / 4294967296) % 256) as u8,
        ((x / 1099511627776) % 256) as u8,
        ((x / 281474976710656) % 256) as u8,
        ((x / 72057594037927936) % 256) as u8,
    ];
    proof {
        assert(bytes@ =~= le_bytes_of_u64(x));
    }
    hasher.write(bytes.as_slice());
    proof {
        assert(hasher@ =~= seq![le_bytes_of_u64(x)]);
    }
    let f = hasher.finish();
    (f % 0x1_0000_0000) as u32
}

/// A hash-map key: a plain copyable value with decidable equality and a
/// deterministic 32-bit hash.
pub trait Key: Sized + Copy {
    /// The key's 32-bit hash.
    spec fn spec_hash(self) -> u32;

    /// Compute the key's hash.
    fn key_hash(self) -> (h: u32)
        ensures
            h == self.spec_hash(),
    ;

    /// Decide whether two keys are equal.
    fn key_eq(self, other: Self) -> (b: bool)
        ensures
            b == (self == other),
    ;
}

impl Key for u32 {
    open spec fn spec_hash(self) -> u32 {
        spec_hash_u64(self as u64)
    }

    fn key_hash(self) -> (h: u32) {
        hash_u64(self as u64)
    }

    fn key_eq(self, other: Self) -> (b: bool) {
        self == other
    }
}

impl Key for u64 {
    open spec fn spec_hash(self) -> u32 {
        spec_hash_u64(self)
    }

    fn key_hash(self) -> (h: u32) {
        hash_u64(self)
    }

    fn key_eq(self, other: Self) -> (b: bool) {
        self == other
    }
}

impl Key for usize {
    open spec fn spec_hash(self) -> u32 {
        spec_hash_u64(self as u64)
    }

    fn key_hash(self) -> (h: u32) {
        hash_u64(self as u64)
    }

    fn key_eq(self, other: Self) -> (b: bool) {
        self == other
    }
}

/// One bucket of the table.  Free: never written, not tombstoned.  Alive:
/// holds a key/value pair and the key's cached hash.  Tombstoned: was
/// alive, now removed; it keeps blocking probe chains.
struct Entry<K, V> {
    hash: u32,
    tombstoned: bool,
    inner: Option<(K, V)>,
}

impl<K, V> Entry<K, V> {
    /// Currently holds a key/value pair.
    spec fn spec_alive(&self) -> bool {
        self.inner is Some
    }

    /// Alive or tombstoned: a probe must not stop here on a miss.
    spec fn spec_used(&self) -> bool {
        self.tombstoned || self.inner is Some
    }

    /// Never written and not tombstoned.
    spec fn spec_free(&self) -> bool {
        !self.spec_used()
    }

    /// The key held (meaningful only when alive).
    spec fn spec_key(&self) -> K
        recommends
            self.spec_alive(),
    {
        self.inner.unwrap().0
    }

    /// The value held (meaningful only when alive).
    spec fn spec_value(&self) -> V
        recommends
            self.spec_alive(),
    {
        self.inner.unwrap().1
    }
}

impl<K: Key, V> Entry<K, V> {
    /// Turn this bucket into an alive entry for `key`.
    fn make_used(&mut self, hash: u32, key: K, value: V)
        ensures
            final(self).hash == hash,
            final(self).tombstoned == old(self).tombstoned,
            final(self).inner == Some((key, value)),
    {
        self.hash = hash;
        self.inner = Some((key, value));
    }

    /// Replace the value of an alive entry, returning the previous value.
    fn replace_value(&mut self, new_val: V) -> (r: Option<V>)
        requires
            old(self).spec_alive(),
        ensures
            r == Some(old(self).spec_value()),
            final(self).hash == old(self).hash,
            final(self).tombstoned == old(self).tombstoned,
            final(self).inner == Some((old(self).spec_key(), new_val)),
    {
        match &mut self.inner {
            Some(kv) => {
                let mut v = new_val;
                core::mem::swap(&mut kv.1, &mut v);
                Some(v)
            },
            None => None,
        }
    }

    /// Tombstone this bucket, returning the value it held, if any.  The
    /// cached hash is retained.
    fn remove(&mut self) -> (r: Option<V>)
        ensures
            final(self).hash == old(self).hash,
            final(self).tombstoned,
            final(self).inner is None,
            old(self).spec_alive() ==> r == Some(old(self).spec_value()),
            !old(self).spec_alive() ==> r is None,
    {
        let mut inner: Option<(K, V)> = None;
        core::mem::swap(&mut self.inner, &mut inner);
        self.tombstoned = true;
        match inner {
            Some((_, v)) => Some(v),
            None => None,
        }
    }

    /// Currently holds a pair?
    fn alive(&self) -> (b: bool)
        ensures
            b == self.spec_alive(),
    {
        self.inner.is_some()
    }

    /// Never written and not tombstoned?
    fn free(&self) -> (b: bool)
        ensures
            b == self.spec_free(),
    {
        self.inner.is_none() && !self.tombstoned
    }

    /// The key of an alive entry.
    fn key(&self) -> (k: &K)
        requires
            self.spec_alive(),
        ensures
            *k == self.spec_key(),
    {
        &self.inner.as_ref().unwrap().0
    }

    /// The value of an alive entry.
    fn value(&self) -> (v: &V)
        requires
            self.spec_alive(),
        ensures
            *v == self.spec_value(),
    {
        &self.inner.as_ref().unwrap().1
    }

    /// Does this entry hold exactly this key?
    fn is_this(&self, key: &K) -> (b: bool)
        ensures
            b == (self.spec_alive() && self.spec_key() == *key),
    {
        match &self.inner {
            Some(kv) => kv.0.key_eq(*key),
            None => false,
        }
    }

    /// Take the pair out of an alive entry.
    fn into_tuple(self) -> (kv: (K, V))
        requires
            self.spec_alive(),
        ensures
            kv.0 == self.spec_key(),
            kv.1 == self.spec_value(),
    {
        self.inner.unwrap()
    }
}

impl<K, V> Entry<K, V> {
    /// A free bucket.
    fn default() -> (e: Self)
        ensures
            e.hash == 0,
            !e.tombstoned,
            e.inner is None,
    {
        Entry { hash: 0, tombstoned: false, inner: None }
    }
}

impl<K: Copy, V: Compact> Compact for Entry<K, V> {
    type Model = (u32, bool, Option<(K, V::Model)>);

    closed spec fn model(&self) -> (u32, bool, Option<(K, V::Model)>) {
        (
            self.hash,
            self.tombstoned,
            match self.inner {
                Some((k, v)) => Some((k, v.model())),
                None => None,
            },
        )
    }

    closed spec fn spec_still_compact(&self) -> bool {
        match self.inner {
            Some((_, v)) => v.spec_still_compact(),
            None => true,
        }
    }

    closed spec fn spec_all_free(&self) -> bool {
        match self.inner {
            Some((_, v)) => v.spec_all_free(),
            None => true,
        }
    }

    closed spec fn spec_tail_bytes(&self) -> nat {
        match self.inner {
            Some((_, v)) => v.spec_tail_bytes(),
            None => 0,
        }
    }

    fn is_still_compact(&self) -> (b: bool) {
        match &self.inner {
            Some(kv) => kv.1.is_still_compact(),
            None => true,
        }
    }

    fn dynamic_size_bytes(&self) -> (n: usize) {
        match &self.inner {
            Some(kv) => kv.1.dynamic_size_bytes(),
            None => 0,
        }
    }

    fn compact(self) -> (r: Self) {
        let Entry { hash, tombstoned, inner } = self;
        match inner {
            Some((k, v)) => Entry { hash, tombstoned, inner: Some((k, v.compact())) },
            None => Entry { hash, tombstoned, inner: None },
        }
    }

    fn decompact(&self) -> (r: Self) {
        match &self.inner {
            Some(kv) => Entry {
                hash: self.hash,
                tombstoned: self.tombstoned,
                inner: Some((kv.0, kv.1.decompact())),
            },
            None => Entry { hash: self.hash, tombstoned: self.tombstoned, inner: None },
        }
    }
}

/// A dynamically-sized open-addressing quadratic-probing hash map that can
/// be stored in compact sequential storage and spills over into free heap
/// storage as it grows.
pub struct OpenAddressingMap<K, V> {
    number_alive: u32,
    number_used: u32,
    entries: CompactVec<Entry<K, V>>,
}

impl<K: Key, V: Compact> View for OpenAddressingMap<K, V> {
    type V = Map<K, V>;

    closed spec fn view(&self) -> Map<K, V> {
        Map::new(|k: K| self.spec_contains(k), |k: K| self.value_at(self.slot_of(k)))
    }
}

impl<K: Key, V: Compact> OpenAddressingMap<K, V> {
    /// The bucket array.
    spec fn s(&self) -> Seq<Entry<K, V>> {
        self.entries@
    }

    /// The bucket count.
    pub closed spec fn spec_capacity(&self) -> nat {
        self.entries@.len()
    }

    /// Alive entries.
    pub closed spec fn spec_len(&self) -> nat {
        self.number_alive as nat
    }

    /// Alive plus tombstoned entries.
    pub closed spec fn spec_len_used(&self) -> nat {
        self.number_used as nat
    }

    /// Bucket `i` holds a pair.
    spec fn alive_at(&self, i: int) -> bool {
        0 <= i < self.s().len() && self.s()[i].spec_alive()
    }

    /// Bucket `i` is alive or tombstoned.
    spec fn used_at(&self, i: int) -> bool {
        0 <= i < self.s().len() && self.s()[i].spec_used()
    }

    /// The key in bucket `i`.
    spec fn key_at(&self, i: int) -> K {
        self.s()[i].spec_key()
    }

    /// The value in bucket `i`.
    spec fn value_at(&self, i: int) -> V {
        self.s()[i].spec_value()
    }

    /// The indices of the alive buckets.
    spec fn alive_ids(&self) -> Set<int> {
        Set::new(|i: int| self.alive_at(i))
    }

    /// The indices of the used buckets.
    spec fn used_ids(&self) -> Set<int> {
        Set::new(|i: int| self.used_at(i))
    }

    /// Some alive bucket holds `k`.
    spec fn spec_contains(&self, k: K) -> bool {
        exists|i: int| #[trigger] self.alive_at(i) && self.key_at(i) == k
    }

    /// The alive bucket holding `k` (unique under `wf`).
    spec fn slot_of(&self, k: K) -> int {
        choose|i: int| #[trigger] self.alive_at(i) && self.key_at(i) == k
    }

    /// The first `steps` buckets of the probe sequence for `h` are all used.
    spec fn prefix_used(&self, h: u32, steps: int) -> bool {
        forall|m: int|
            0 <= m < steps ==> self.used_at(
                #[trigger] probe_index(h, m, self.s().len() as int),
            )
    }

    /// Bucket `i` is reached by the probe sequence of its own cached hash
    /// before that sequence meets any free bucket.
    spec fn probe_reaches(&self, i: int) -> bool {
        exists|step: int|
            0 <= step < self.s().len() && #[trigger] probe_index(
                self.s()[i].hash,
                step,
                self.s().len() as int,
            ) == i && self.prefix_used(self.s()[i].hash, step)
    }

    /// Well-formedness: the bucket array is fully materialized at a prime
    /// size; the counters count the alive and the used buckets; the table
    /// is never more than one entry past half used; alive keys are unique,
    /// their cached hashes are honest, and every alive entry sits on its
    /// own probe chain before any free bucket.
    pub closed spec fn wf(&self) -> bool {
        let n = self.s().len() as int;
        &&& self.entries@.len() == self.entries.spec_cap()
        &&& 2 <= n <= MAX_PRIME
        &&& is_prime(n)
        &&& self.alive_ids().finite()
        &&& self.number_alive as int == self.alive_ids().len()
        &&& self.used_ids().finite()
        &&& self.number_used as int == self.used_ids().len()
        &&& self.number_used as int <= n / 2 + 1
        &&& forall|i: int, j: int|
            self.alive_at(i) && self.alive_at(j) && #[trigger] self.key_at(i)
                == #[trigger] self.key_at(j) ==> i == j
        &&& forall|i: int| #[trigger] self.alive_at(i) ==> self.s()[i].hash == self.key_at(
            i,
        ).spec_hash()
        &&& forall|i: int| #[trigger] self.alive_at(i) ==> self.probe_reaches(i)
    }

    /// Both index sets are finite subsets of the bucket range, and the
    /// alive buckets are among the used ones.
    proof fn lemma_ids_in_range(&self)
        ensures
            self.alive_ids().finite(),
            self.used_ids().finite(),
            self.alive_ids().len() <= self.used_ids().len(),
            self.used_ids().len() <= self.s().len(),
    {
        broadcast use vstd::set::group_set_axioms;

        let n = self.s().len() as int;
        let range = set_int_range(0, n);
        lemma_int_range(0, n);
        assert(self.used_ids().subset_of(range));
        lemma_set_subset_finite(range, self.used_ids());
        lemma_len_subset(self.used_ids(), range);
        assert(self.alive_ids().subset_of(self.used_ids()));
        lemma_set_subset_finite(self.used_ids(), self.alive_ids());
        lemma_len_subset(self.alive_ids(), self.used_ids());
    }

    /// An alive bucket's key is in the view, mapped to that bucket's value.
    proof fn lemma_alive_slot_view(&self, i: int)
        requires
            self.wf(),
            self.alive_at(i),
        ensures
            self.spec_contains(self.key_at(i)),
            self@.contains_key(self.key_at(i)),
            self@[self.key_at(i)] == self.value_at(i),
            self.slot_of(self.key_at(i)) == i,
    {
        let k = self.key_at(i);
        assert(self.spec_contains(k));
        let j = self.slot_of(k);
        assert(self.alive_at(j) && self.key_at(j) == k);
        assert(j == i);
    }

    /// The hash function used for keys, exposed for collision studies.
    pub fn hash(key: K) -> (h: u32)
        ensures
            h == key.spec_hash(),
    {
        key.key_hash()
    }

    /// Create a map with at least `l` buckets: the bucket count is the
    /// smallest prime at or above `l` (and at least 2).
    pub fn with_capacity(l: usize) -> (m: Self)
        requires
            l <= MAX_PRIME,
        ensures
            m.wf(),
            m@ == Map::<K, V>::empty(),
            m.spec_len() == 0,
            m.spec_len_used() == 0,
            l <= m.spec_capacity() <= MAX_PRIME,
            is_prime(m.spec_capacity() as int),
            forall|q: int| 2 <= q && l <= q < m.spec_capacity() ==> !is_prime(q),
    {
        let p = next_prime_at_least(l);
        let mut entries: CompactVec<Entry<K, V>> = CompactVec::with_capacity(p);
        let mut i: usize = 0;
        while i < p
            invariant
                i <= p,
                entries@.len() == i,
                entries.spec_cap() == p,
                forall|k: int|
                    0 <= k < i ==> !(#[trigger] entries@[k]).spec_used(),
            decreases p - i,
        {
            entries.push(Entry { hash: 0, tombstoned: false, inner: None });
            i += 1;
        }
        let m = OpenAddressingMap { number_alive: 0u32, number_used: 0u32, entries };
        proof {
            broadcast use vstd::set::group_set_axioms;

            assert(m.alive_ids() =~= Set::<int>::empty());
            assert(m.used_ids() =~= Set::<int>::empty());
            assert forall|k: K| !m.spec_contains(k) by {
                if m.spec_contains(k) {
                    let i = choose|i: int| #[trigger] m.alive_at(i) && m.key_at(i) == k;
                }
            }
            assert(m@ =~= Map::<K, V>::empty());
        }
        m
    }

    /// Create a map with the default initial bucket count.
    pub fn new() -> (m: Self)
        ensures
            m.wf(),
            m@ == Map::<K, V>::empty(),
            m.spec_len() == 0,
            m.spec_len_used() == 0,
            m.spec_capacity() == 5,
    {
        let m = Self::with_capacity(4);
        proof {
            assert(is_prime(5)) by {
                assert forall|d: int| 2 <= d < 5 implies #[trigger] (5int % d) != 0 by {
                    assert(5int % 2 == 1);
                    assert(5int % 3 == 2);
                    assert(5int % 4 == 1);
                }
            }
            if m.spec_capacity() > 5 {
                assert(!is_prime(5));
            }
            assert(!is_prime(4)) by {
                assert(4int % 2 == 0);
            }
        }
        m
    }

    /// The number of alive entries.
    pub fn len(&self) -> (n: usize)
        ensures
            n == self.spec_len(),
    {
        self.number_alive as usize
    }

    /// The number of used (alive or tombstoned) entries.
    pub fn len_used(&self) -> (n: usize)
        ensures
            n == self.spec_len_used(),
    {
        self.number_used as usize
    }

    /// The bucket count.
    pub fn capacity(&self) -> (n: usize)
        ensures
            n == self.spec_capacity(),
    {
        self.entries.len()
    }

    /// Is the map empty?
    pub fn is_empty(&self) -> (b: bool)
        ensures
            b == (self.spec_len() == 0),
    {
        self.number_alive == 0
    }

    /// Look up the value for `query`, if present.
    pub fn get(&self, query: K) -> (r: Option<&V>)
        requires
            self.wf(),
        ensures
            self@.contains_key(query) ==> r == Some(&self@[query]),
            !self@.contains_key(query) ==> r is None,
    {
        match self.find_index(query) {
            Some(idx) => {
                proof {
                    self.lemma_alive_slot_view(idx as int);
                }
                Some(self.entries.get_ref(idx).value())
            },
            None => None,
        }
    }

    /// Does the map hold a value for `query`?
    pub fn contains_key(&self, query: K) -> (b: bool)
        requires
            self.wf(),
        ensures
            b == self@.contains_key(query),
    {
        self.get(query).is_some()
    }

    /// A probe chain that reached bucket `j` before any free bucket still
    /// does after a state change that turns no used bucket free and keeps
    /// bucket `j`'s cached hash.
    proof fn lemma_probe_reaches_transfer(pre: &Self, post: &Self, j: int)
        requires
            post.s().len() == pre.s().len(),
            forall|m: int| pre.used_at(m) ==> post.used_at(m),
            post.s()[j].hash == pre.s()[j].hash,
            pre.probe_reaches(j),
        ensures
            post.probe_reaches(j),
    {
        let n = pre.s().len() as int;
        let h = pre.s()[j].hash;
        let step = choose|step: int|
            0 <= step < n && #[trigger] probe_index(h, step, n) == j && pre.prefix_used(h, step);
        assert forall|m: int| 0 <= m < step implies post.used_at(
            #[trigger] probe_index(h, m, n),
        ) by {
            assert(pre.used_at(probe_index(h, m, n)));
        }
        assert(post.prefix_used(h, step));
        assert(probe_index(post.s()[j].hash, step, post.s().len() as int) == j);
    }

    /// Remove the value at key `query` and return it, if it existed.  The
    /// bucket is tombstoned: the alive count drops, the used count stays.
    #[verifier::rlimit(40)]
    pub fn remove(&mut self, query: K) -> (r: Option<V>)
        requires
            old(self).wf(),
        ensures
            final(self).wf(),
            final(self)@ == old(self)@.remove(query),
            old(self)@.contains_key(query) ==> r == Some(old(self)@[query]) && final(self).spec_len() == old(self).spec_len() - 1,
            !old(self)@.contains_key(query) ==> r is None && final(self).spec_len() == old(self).spec_len(),
            final(self).spec_len_used() == old(self).spec_len_used(),
            final(self).spec_capacity() == old(self).spec_capacity(),
    {
        let found = self.find_index(query);
        match found {
            Some(idx) => {
                proof {
                    self.lemma_alive_slot_view(idx as int);
                    self.lemma_ids_in_range();
                }
                let ghost pre = *self;
                let mut old_entry = self.entries.replace_at(idx, Entry::default());
                let taken = old_entry.remove();
                let _ = self.entries.replace_at(idx, old_entry);
                proof {
                    broadcast use vstd::set::group_set_axioms;

                    assert(pre.alive_ids().contains(idx as int));
                }
                self.number_alive = self.number_alive - 1;
                proof {
                    broadcast use vstd::set::group_set_axioms;

                    let id = idx as int;
                    let tomb = self.s()[id];
                    assert(self.s() =~= pre.s().update(id, tomb));
                    assert(tomb.hash == pre.s()[id].hash && tomb.tombstoned && !tomb.spec_alive());
                    assert forall|j: int| j != id implies (self.alive_at(j) == pre.alive_at(j)
                        && self.used_at(j) == pre.used_at(j)) by {
                        if 0 <= j < self.s().len() {
                            assert(self.s()[j] == pre.s()[j]);
                        }
                    }
                    assert(self.alive_ids() =~= pre.alive_ids().remove(id));
                    assert(self.used_ids() =~= pre.used_ids());
                    assert forall|j: int, j2: int|
                        self.alive_at(j) && self.alive_at(j2) && #[trigger] self.key_at(j)
                            == #[trigger] self.key_at(j2) implies j == j2 by {
                        if j != j2 {
                            assert(pre.alive_at(j) && pre.alive_at(j2));
                            assert(pre.key_at(j) == pre.key_at(j2));
                        }
                    }
                    assert forall|j: int| #[trigger] self.alive_at(j) implies self.s()[j].hash
                        == self.key_at(j).spec_hash() by {
                        assert(pre.alive_at(j));
                        assert(self.s()[j] == pre.s()[j]);
                    }
                    assert forall|j: int| #[trigger] self.alive_at(j) implies self.probe_reaches(
                        j,
                    ) by {
                        assert(j != id);
                        assert(pre.alive_at(j));
                        assert(self.s()[j] == pre.s()[j]);
                        Self::lemma_probe_reaches_transfer(&pre, self, j);
                    }
                    assert forall|k2: K| #[trigger] self.spec_contains(k2) == (k2 != query
                        && pre.spec_contains(k2)) by {
                        if self.spec_contains(k2) {
                            let j = choose|j: int|
                                #[trigger] self.alive_at(j) && self.key_at(j) == k2;
                            assert(j != id);
                            assert(pre.alive_at(j) && pre.key_at(j) == k2);
                            assert(k2 != query) by {
                                if k2 == query {
                                    assert(pre.key_at(j) == pre.key_at(id));
                                }
                            }
                        }
                        if k2 != query && pre.spec_contains(k2) {
                            let j = choose|j: int|
                                #[trigger] pre.alive_at(j) && pre.key_at(j) == k2;
                            assert(j != id);
                            assert(self.alive_at(j) && self.key_at(j) == k2);
                        }
                    }
                    assert forall|k2: K| #[trigger] self.spec_contains(k2) implies self@[k2]
                        == pre@[k2] by {
                        let j = self.slot_of(k2);
                        assert(self.alive_at(j) && self.key_at(j) == k2);
                        assert(j != id);
                        assert(pre.alive_at(j) && pre.key_at(j) == k2);
                        pre.lemma_alive_slot_view(j);
                        assert(self@[k2] == self.value_at(j));
                        assert(self.s()[j] == pre.s()[j]);
                    }
                    assert(self@ =~= pre@.remove(query));
                }
                taken
            },
            None => {
                proof {
                    assert(self@ =~= old(self)@.remove(query));
                }
                None
            },
        }
    }

    /// Place `query`/`value` without growing: overwrite the value if the
    /// key is present, otherwise claim the first free bucket on the probe
    /// chain.  The table must be at most half used, which guarantees such
    /// a bucket exists.
    #[verifier::rlimit(40)]
    fn insert_inner(&mut self, query: K, value: V) -> (r: Option<V>)
        requires
            old(self).wf(),
            old(self).spec_len_used() <= old(self).spec_capacity() / 2,
        ensures
            final(self).wf(),
            final(self)@ == old(self)@.insert(query, value),
            final(self).spec_capacity() == old(self).spec_capacity(),
            old(self)@.contains_key(query) ==> r == Some(old(self)@[query]) && final(self).spec_len() == old(self).spec_len() && final(self).spec_len_used() == old(self).spec_len_used(),
            !old(self)@.contains_key(query) ==> r is None && final(self).spec_len() == old(self).spec_len() + 1 && final(self).spec_len_used() == old(self).spec_len_used() + 1,
    {
        let h = Self::hash(query);
        let n = self.entries.len();
        let mut i: usize = 0;
        while i < n
            invariant
                self == old(self),
                self.wf(),
                old(self).spec_len_used() <= old(self).spec_capacity() / 2,
                i <= n,
                n == self.s().len(),
                h == query.spec_hash(),
                forall|m: int|
                    0 <= m < i ==> {
                        let jm = #[trigger] probe_index(h, m, n as int);
                        !(self.s()[jm].spec_free()) && !(self.alive_at(jm) && self.key_at(jm)
                            == query)
                    },
            decreases n - i,
        {
            let idx = probe_slot(h, i, n);
            let is_free = self.entries.get_ref(idx).free();
            if is_free {
                proof {
                    self.lemma_ids_in_range();
                    if self.spec_contains(query) {
                        let j = choose|j: int|
                            #[trigger] self.alive_at(j) && self.key_at(j) == query;
                        assert(self.probe_reaches(j));
                        let step = choose|step: int|
                            0 <= step < self.s().len() && #[trigger] probe_index(
                                self.s()[j].hash,
                                step,
                                self.s().len() as int,
                            ) == j && self.prefix_used(self.s()[j].hash, step);
                        assert(self.s()[j].hash == h);
                        if step < i {
                            assert(self.alive_at(probe_index(h, step, n as int)));
                            assert(false);
                        } else if step == i {
                            assert(probe_index(h, step, n as int) == idx as int);
                            assert(false);
                        } else {
                            assert(self.used_at(probe_index(h, i as int, n as int)));
                            assert(false);
                        }
                    }
                }
                let ghost pre = *self;
                let mut fresh = Entry::default();
                fresh.make_used(h, query, value);
                let _ = self.entries.replace_at(idx, fresh);
                self.number_alive = self.number_alive + 1;
                self.number_used = self.number_used + 1;
                proof {
                    broadcast use vstd::set::group_set_axioms;

                    let id = idx as int;
                    assert(self.s() == pre.s().update(id, fresh));
                    assert(!pre.alive_ids().contains(id));
                    assert(!pre.used_ids().contains(id));
                    assert forall|j: int| j != id implies (self.alive_at(j) == pre.alive_at(j)
                        && self.used_at(j) == pre.used_at(j)) by {
                        if 0 <= j < self.s().len() {
                            assert(self.s()[j] == pre.s()[j]);
                        }
                    }
                    assert(self.alive_at(id) && self.used_at(id));
                    assert(self.alive_ids() =~= pre.alive_ids().insert(id));
                    assert(self.used_ids() =~= pre.used_ids().insert(id));
                    assert forall|j: int, j2: int|
                        self.alive_at(j) && self.alive_at(j2) && #[trigger] self.key_at(j)
                            == #[trigger] self.key_at(j2) implies j == j2 by {
                        if j != j2 {
                            if j == id {
                                assert(pre.alive_at(j2) && pre.key_at(j2) == query);
                                assert(pre.spec_contains(query));
                            } else if j2 == id {
                                assert(pre.alive_at(j) && pre.key_at(j) == query);
                                assert(pre.spec_contains(query));
                            } else {
                                assert(pre.alive_at(j) && pre.alive_at(j2));
                                assert(pre.key_at(j) == pre.key_at(j2));
                            }
                        }
                    }
                    assert forall|j: int| #[trigger] self.alive_at(j) implies self.s()[j].hash
                        == self.key_at(j).spec_hash() by {
                        if j != id {
                            assert(pre.alive_at(j));
                            assert(self.s()[j] == pre.s()[j]);
                        }
                    }
                    assert forall|j: int| #[trigger] self.alive_at(j) implies self.probe_reaches(
                        j,
                    ) by {
                        if j == id {
                            assert forall|m: int| 0 <= m < i implies self.used_at(
                                #[trigger] probe_index(h, m, n as int),
                            ) by {
                                assert(!(pre.s()[probe_index(h, m, n as int)].spec_free()));
                                assert(pre.used_at(probe_index(h, m, n as int)));
                            }
                            assert(self.prefix_used(h, i as int));
                            assert(probe_index(self.s()[j].hash, i as int, n as int) == j);
                        } else {
                            assert(pre.alive_at(j));
                            assert(self.s()[j] == pre.s()[j]);
                            Self::lemma_probe_reaches_transfer(&pre, self, j);
                        }
                    }
                    assert forall|k2: K| #[trigger] self.spec_contains(k2) == (k2 == query
                        || pre.spec_contains(k2)) by {
                        if self.spec_contains(k2) {
                            let j = choose|j: int|
                                #[trigger] self.alive_at(j) && self.key_at(j) == k2;
                            if j != id {
                                assert(pre.alive_at(j) && pre.key_at(j) == k2);
                            }
                        }
                        if k2 == query {
                            assert(self.alive_at(id) && self.key_at(id) == query);
                            assert(self.spec_contains(k2));
                        } else if pre.spec_contains(k2) {
                            let j = choose|j: int|
                                #[trigger] pre.alive_at(j) && pre.key_at(j) == k2;
                            assert(j != id);
                            assert(self.alive_at(j) && self.key_at(j) == k2);
                        }
                    }
                    assert forall|k2: K| #[trigger] self.spec_contains(k2) implies self@[k2] == (
                    if k2 == query {
                        value
                    } else {
                        pre@[k2]
                    }) by {
                        let j = self.slot_of(k2);
                        assert(self.alive_at(j) && self.key_at(j) == k2);
                        if k2 == query {
                            assert(j == id);
                            assert(self@[k2] == self.value_at(id));
                        } else {
                            assert(j != id);
                            assert(pre.alive_at(j) && pre.key_at(j) == k2);
                            pre.lemma_alive_slot_view(j);
                            assert(self@[k2] == self.value_at(j));
                            assert(self.s()[j] == pre.s()[j]);
                        }
                    }
                    assert(self@ =~= pre@.insert(query, value));
                }
                return None;
            }
            let found = self.entries.get_ref(idx).is_this(&query);
            if found {
                proof {
                    self.lemma_alive_slot_view(idx as int);
                }
                let ghost pre = *self;
                let mut entry = self.entries.replace_at(idx, Entry::default());
                let r = entry.replace_value(value);
                let _ = self.entries.replace_at(idx, entry);
                proof {
                    broadcast use vstd::set::group_set_axioms;

                    let id = idx as int;
                    let e2 = self.s()[id];
                    assert(self.s() =~= pre.s().update(id, e2));
                    assert(e2.spec_alive() && e2.spec_key() == query && e2.spec_value() == value
                        && e2.hash == pre.s()[id].hash);
                    assert forall|j: int| j != id implies (self.alive_at(j) == pre.alive_at(j)
                        && self.used_at(j) == pre.used_at(j)) by {
                        if 0 <= j < self.s().len() {
                            assert(self.s()[j] == pre.s()[j]);
                        }
                    }
                    assert(self.alive_ids() =~= pre.alive_ids());
                    assert(self.used_ids() =~= pre.used_ids());
                    assert forall|j: int, j2: int|
                        self.alive_at(j) && self.alive_at(j2) && #[trigger] self.key_at(j)
                            == #[trigger] self.key_at(j2) implies j == j2 by {
                        if j != j2 {
                            assert(pre.alive_at(j) && pre.alive_at(j2));
                            assert(pre.key_at(j) == pre.key_at(j2));
                        }
                    }
                    assert forall|j: int| #[trigger] self.alive_at(j) implies self.s()[j].hash
                        == self.key_at(j).spec_hash() by {
                        assert(pre.alive_at(j));
                        if j != id {
                            assert(self.s()[j] == pre.s()[j]);
                        }
                    }
                    assert forall|j: int| #[trigger] self.alive_at(j) implies self.probe_reaches(
                        j,
                    ) by {
                        assert(pre.alive_at(j));
                        assert(self.s()[j].hash == pre.s()[j].hash);
                        Self::lemma_probe_reaches_transfer(&pre, self, j);
                    }
                    assert forall|k2: K| #[trigger] self.spec_contains(k2) == (k2 == query
                        || pre.spec_contains(k2)) by {
                        if self.spec_contains(k2) {
                            let j = choose|j: int|
                                #[trigger] self.alive_at(j) && self.key_at(j) == k2;
                            if j != id {
                                assert(pre.alive_at(j) && pre.key_at(j) == k2);
                            }
                        }
                        if k2 == query {
                            assert(self.alive_at(id) && self.key_at(id) == query);
                        } else if pre.spec_contains(k2) {
                            let j = choose|j: int|
                                #[trigger] pre.alive_at(j) && pre.key_at(j) == k2;
                            assert(j != id);
                            assert(self.alive_at(j) && self.key_at(j) == k2);
                        }
                    }
                    assert forall|k2: K| #[trigger] self.spec_contains(k2) implies self@[k2] == (
                    if k2 == query {
                        value
                    } else {
                        pre@[k2]
                    }) by {
                        let j = self.slot_of(k2);
                        assert(self.alive_at(j) && self.key_at(j) == k2);
                        if k2 == query {
                            assert(j == id);
                        } else {
                            assert(j != id);
                            assert(pre.alive_at(j) && pre.key_at(j) == k2);
                            pre.lemma_alive_slot_view(j);
                            assert(self@[k2] == self.value_at(j));
                            assert(self.s()[j] == pre.s()[j]);
                        }
                    }
                    assert(self@ =~= pre@.insert(query, value));
                }
                return r;
            }
            i += 1;
        }
        proof {
            self.lemma_ids_in_range();
            lemma_probe_hits_unused(n as int, h, self.used_ids());
            let w = choose|w: int|
                0 <= w <= (n as int) / 2 && !self.used_ids().contains(
                    #[trigger] probe_index(h, w, n as int),
                );
            assert(self.s()[probe_index(h, w, n as int)].spec_free());
            assert(false);
        }
        None
    }

    /// The keys held by alive buckets at index `t` or beyond, mapped to
    /// their values.
    spec fn view_of_suffix(pre: Self, t: int) -> Map<K, V> {
        Map::new(
            |k: K| exists|j: int| t <= j && #[trigger] pre.alive_at(j) && pre.key_at(j) == k,
            |k: K| pre@[k],
        )
    }

    /// The indices of the alive buckets at index `t` or beyond.
    spec fn suffix_alive(pre: Self, t: int) -> Set<int> {
        Set::new(|j: int| t <= j && pre.alive_at(j))
    }

    /// Inserting may double the bucket count, and the new count must stay
    /// within the prime sieve's range.
    pub open spec fn growth_in_sieve(&self) -> bool {
        self.spec_len_used() > self.spec_capacity() / 2 && self.spec_capacity() - self.spec_len()
            <= self.spec_capacity() / 2 ==> 2 * self.spec_capacity() <= MAX_PRIME
    }

    /// Grow and rehash when the table is more than half used.  If most
    /// used buckets are dead (tombstoned), the bucket count stays and the
    /// rebuild merely reclaims them; otherwise the count doubles (to the
    /// next prime).  Only the alive entries move to the rebuilt table.
    fn ensure_capacity(&mut self)
        requires
            old(self).wf(),
            old(self).growth_in_sieve(),
        ensures
            final(self).wf(),
            final(self)@ == old(self)@,
            final(self).spec_len() == old(self).spec_len(),
            final(self).spec_len_used() <= final(self).spec_capacity() / 2,
            old(self).spec_len_used() <= old(self).spec_capacity() / 2 ==> *final(self) == *old(self),
            old(self).spec_len_used() > old(self).spec_capacity() / 2 ==> final(self).spec_len_used()
                == final(self).spec_len(),
            old(self).spec_len_used() > old(self).spec_capacity() / 2 && old(self).spec_capacity()
                - old(self).spec_len() > old(self).spec_capacity() / 2 ==> final(self).spec_capacity()
                == old(self).spec_capacity(),
            old(self).spec_len_used() > old(self).spec_capacity() / 2 && old(self).spec_capacity()
                - old(self).spec_len() <= old(self).spec_capacity() / 2 ==> is_prime(
                final(self).spec_capacity() as int,
            ) && 2 * old(self).spec_capacity() <= final(self).spec_capacity() <= MAX_PRIME && (
            forall|q: int|
                2 * old(self).spec_capacity() <= q < final(self).spec_capacity() ==> !is_prime(q)),
    {
        let n = self.entries.len();
        let used = self.number_used as usize;
        if used > n / 2 {
            proof {
                self.lemma_ids_in_range();
            }
            let alive = self.number_alive as usize;
            let number_dead = n - alive;
            let mut new_capacity = n * 2;
            if number_dead > n / 2 {
                new_capacity = n;
            }
            let ghost pre = *self;
            let mut new_map = Self::with_capacity(new_capacity);
            proof {
                broadcast use vstd::set::group_set_axioms;

                if number_dead > n / 2 {
                    if new_map.spec_capacity() > n as nat {
                        assert(2 <= n as int && new_capacity <= n < new_map.spec_capacity());
                        assert(!is_prime(n as int));
                        assert(false);
                    }
                    assert(new_map.spec_capacity() == n as nat);
                } else {
                    assert(new_map.spec_capacity() >= 2 * n as nat);
                }
                assert(pre.spec_len() <= new_map.spec_capacity() / 2);
            }
            let ghost p0 = new_map.spec_capacity();
            let mut old_entries = self.entries.take_items();
            proof {
                assert(old_entries@ =~= pre.s().take(old_entries@.len() as int));
                assert(Self::view_of_suffix(pre, pre.s().len() as int) =~= new_map@);
                assert(Self::suffix_alive(pre, pre.s().len() as int) =~= Set::<int>::empty());
            }
            while old_entries.len() > 0
                invariant
                    pre.wf(),
                    old_entries@.len() <= pre.s().len(),
                    old_entries@ == pre.s().take(old_entries@.len() as int),
                    new_map.wf(),
                    pre.spec_len() <= p0 / 2,
                    new_map.spec_capacity() == p0,
                    new_map@ == Self::view_of_suffix(pre, old_entries@.len() as int),
                    Self::suffix_alive(pre, old_entries@.len() as int).finite(),
                    new_map.spec_len() == Self::suffix_alive(
                        pre,
                        old_entries@.len() as int,
                    ).len(),
                    new_map.spec_len_used() == new_map.spec_len(),
                decreases old_entries@.len(),
            {
                let ghost t = old_entries@.len() as int;
                let ghost t2 = t - 1;
                proof {
                    broadcast use vstd::set::group_set_axioms;

                    assert(Self::suffix_alive(pre, t2).subset_of(pre.alive_ids()));
                    lemma_set_subset_finite(pre.alive_ids(), Self::suffix_alive(pre, t2));
                    lemma_len_subset(Self::suffix_alive(pre, t2), pre.alive_ids());
                    assert(Self::suffix_alive(pre, t).subset_of(pre.alive_ids()));
                    lemma_set_subset_finite(pre.alive_ids(), Self::suffix_alive(pre, t));
                    lemma_len_subset(Self::suffix_alive(pre, t), pre.alive_ids());
                    assert(pre.s().take(t)[t2] == pre.s()[t2]);
                }
                let e = old_entries.pop().unwrap();
                let is_alive = e.alive();
                if is_alive {
                    proof {
                        broadcast use vstd::set::group_set_axioms;

                        assert(pre.alive_at(t2));
                        pre.lemma_alive_slot_view(t2);
                        let k = pre.key_at(t2);
                        if new_map@.contains_key(k) {
                            let j = choose|j: int|
                                t <= j && #[trigger] pre.alive_at(j) && pre.key_at(j) == k;
                            assert(pre.key_at(j) == pre.key_at(t2));
                            assert(false);
                        }
                        assert(Self::suffix_alive(pre, t).len() <= pre.alive_ids().len());
                    }
                    let ghost before = new_map;
                    let (k, v) = e.into_tuple();
                    let prior = new_map.insert_inner(k, v);
                    proof {
                        broadcast use vstd::set::group_set_axioms;

                        assert(v == pre@[k]);
                        assert forall|k2: K|
                            #[trigger] Self::view_of_suffix(pre, t2).contains_key(k2)
                                == new_map@.contains_key(k2) by {
                            if Self::view_of_suffix(pre, t2).contains_key(k2) {
                                let j = choose|j: int|
                                    t2 <= j && #[trigger] pre.alive_at(j) && pre.key_at(j) == k2;
                                if j == t2 {
                                    assert(k2 == k);
                                } else {
                                    assert(Self::view_of_suffix(pre, t).contains_key(k2));
                                }
                            }
                            if new_map@.contains_key(k2) {
                                if k2 == k {
                                    assert(t2 <= t2 && pre.alive_at(t2) && pre.key_at(t2) == k2);
                                } else {
                                    assert(before@.contains_key(k2));
                                    let j = choose|j: int|
                                        t <= j && #[trigger] pre.alive_at(j) && pre.key_at(j)
                                            == k2;
                                    assert(t2 <= j);
                                }
                            }
                        }
                        assert(new_map@ =~= Self::view_of_suffix(pre, t2));
                        assert(Self::suffix_alive(pre, t2) =~= Self::suffix_alive(pre, t).insert(
                            t2,
                        ));
                        assert(!Self::suffix_alive(pre, t).contains(t2));
                    }
                } else {
                    proof {
                        broadcast use vstd::set::group_set_axioms;

                        assert(!pre.alive_at(t2));
                        assert forall|k2: K|
                            #[trigger] Self::view_of_suffix(pre, t2).contains_key(k2)
                                == Self::view_of_suffix(pre, t).contains_key(k2) by {
                            if Self::view_of_suffix(pre, t2).contains_key(k2) {
                                let j = choose|j: int|
                                    t2 <= j && #[trigger] pre.alive_at(j) && pre.key_at(j) == k2;
                                assert(j != t2);
                            }
                        }
                        assert(Self::view_of_suffix(pre, t2) =~= Self::view_of_suffix(pre, t));
                        assert(Self::suffix_alive(pre, t2) =~= Self::suffix_alive(pre, t));
                    }
                }
                proof {
                    assert(old_entries@ =~= pre.s().take(old_entries@.len() as int));
                }
            }
            proof {
                broadcast use vstd::set::group_set_axioms;

                assert forall|k2: K|
                    #[trigger] Self::view_of_suffix(pre, 0).contains_key(k2) == pre@.contains_key(
                    k2,
                ) by {
                    if pre.spec_contains(k2) {
                        let j = choose|j: int| #[trigger] pre.alive_at(j) && pre.key_at(j) == k2;
                        assert(0 <= j && pre.alive_at(j) && pre.key_at(j) == k2);
                    }
                    if Self::view_of_suffix(pre, 0).contains_key(k2) {
                        let j = choose|j: int|
                            0 <= j && #[trigger] pre.alive_at(j) && pre.key_at(j) == k2;
                        assert(pre.spec_contains(k2));
                    }
                }
                assert(Self::view_of_suffix(pre, 0) =~= pre@);
                assert(Self::suffix_alive(pre, 0) =~= pre.alive_ids());
            }
            *self = new_map;
        }
    }

    /// Insert `value` at `query` and return the previous value there, if
    /// any.  Grows first when the table is more than half used, so the
    /// probe always finds the key or a free bucket; right after an insert
    /// the table is at most one entry past half used.
    pub fn insert(&mut self, query: K, value: V) -> (r: Option<V>)
        requires
            old(self).wf(),
            old(self).growth_in_sieve(),
        ensures
            final(self).wf(),
            final(self)@ == old(self)@.insert(query, value),
            old(self)@.contains_key(query) ==> r == Some(old(self)@[query]) && final(self).spec_len()
                == old(self).spec_len(),
            !old(self)@.contains_key(query) ==> r is None && final(self).spec_len() == old(self).spec_len()
                + 1,
            final(self).spec_len_used() <= final(self).spec_capacity() / 2 + 1,
            final(self).spec_len_used() <= old(self).spec_len_used() + 1,
            old(self).spec_len_used() <= old(self).spec_capacity() / 2 ==> final(self).spec_capacity()
                == old(self).spec_capacity() && final(self).spec_len_used() == old(self).spec_len_used()
                + (if old(self)@.contains_key(query) {
                0int
            } else {
                1int
            }),
            old(self).spec_len_used() > old(self).spec_capacity() / 2 && old(self).spec_capacity()
                - old(self).spec_len() > old(self).spec_capacity() / 2 ==> final(self).spec_capacity()
                == old(self).spec_capacity(),
            old(self).spec_len_used() > old(self).spec_capacity() / 2 && old(self).spec_capacity()
                - old(self).spec_len() <= old(self).spec_capacity() / 2 ==> is_prime(
                final(self).spec_capacity() as int,
            ) && 2 * old(self).spec_capacity() <= final(self).spec_capacity() <= MAX_PRIME && (
            forall|q: int|
                2 * old(self).spec_capacity() <= q < final(self).spec_capacity() ==> !is_prime(q)),
    {
        proof {
            self.lemma_used_at_least_alive();
        }
        self.ensure_capacity();
        self.insert_inner(query, value)
    }

    /// The bucket holding `query`, if the key is present.
    fn find_index(&self, query: K) -> (r: Option<usize>)
        requires
            self.wf(),
        ensures
            match r {
                Some(idx) => idx < self.spec_capacity() && self.alive_at(idx as int)
                    && self.key_at(idx as int) == query,
                None => !self@.contains_key(query),
            },
    {
        let h = Self::hash(query);
        let n = self.entries.len();
        let mut i: usize = 0;
        while i < n
            invariant
                self.wf(),
                i <= n,
                n == self.s().len(),
                h == query.spec_hash(),
                forall|m: int|
                    0 <= m < i ==> !(self.alive_at(
                        #[trigger] probe_index(h, m, n as int),
                    ) && self.key_at(probe_index(h, m, n as int)) == query),
            decreases n - i,
        {
            let idx = probe_slot(h, i, n);
            if self.entries.get_ref(idx).is_this(&query) {
                return Some(idx);
            }
            i += 1;
        }
        proof {
            if self.spec_contains(query) {
                let j = choose|j: int| #[trigger] self.alive_at(j) && self.key_at(j) == query;
                assert(self.probe_reaches(j));
                let step = choose|step: int|
                    0 <= step < self.s().len() && #[trigger] probe_index(
                        self.s()[j].hash,
                        step,
                        self.s().len() as int,
                    ) == j && self.prefix_used(self.s()[j].hash, step);
                assert(self.s()[j].hash == query.spec_hash());
                assert(self.alive_at(probe_index(h, step, n as int)));
                assert(false);
            }
        }
        None
    }

    /// All keys of the map, in bucket order, each exactly once.
    pub fn keys(&self) -> (r: Vec<K>)
        requires
            self.wf(),
        ensures
            forall|k: K| r@.contains(k) <==> self@.contains_key(k),
            r@.no_duplicates(),
            r@.len() == self.spec_len(),
    {
        broadcast use vstd::set::group_set_axioms;

        let n = self.entries.len();
        let mut r: Vec<K> = Vec::new();
        let mut i: usize = 0;
        proof {
            assert(Set::new(|j: int| 0 <= j < 0 && self.alive_at(j)) =~= Set::<int>::empty());
        }
        while i < n
            invariant
                self.wf(),
                i <= n,
                n == self.s().len(),
                forall|k: K|
                    r@.contains(k) <==> exists|j: int|
                        0 <= j < i && #[trigger] self.alive_at(j) && self.key_at(j) == k,
                r@.no_duplicates(),
                Set::new(|j: int| 0 <= j < i && self.alive_at(j)).finite(),
                r@.len() == Set::new(|j: int| 0 <= j < i && self.alive_at(j)).len(),
            decreases n - i,
        {
            let ghost prefix = Set::new(|j: int| 0 <= j < i && self.alive_at(j));
            let ghost prefix2 = Set::new(|j: int| 0 <= j < i + 1 && self.alive_at(j));
            let e = self.entries.get_ref(i);
            if e.alive() {
                proof {
                    assert(prefix2 =~= prefix.insert(i as int));
                }
                let k = *e.key();
                proof {
                    if r@.contains(k) {
                        let j = choose|j: int|
                            0 <= j < i && #[trigger] self.alive_at(j) && self.key_at(j) == k;
                        assert(self.key_at(j) == self.key_at(i as int));
                        assert(false);
                    }
                }
                let ghost prev = r@;
                r.push(k);
                proof {
                    assert forall|k2: K| #[trigger] r@.contains(k2) == (prev.contains(k2) || k2
                        == k) by {
                        if r@.contains(k2) {
                            let x = choose|x: int| 0 <= x < r@.len() && r@[x] == k2;
                            if x < prev.len() {
                                assert(prev[x] == k2);
                            }
                        }
                        if prev.contains(k2) {
                            let x = choose|x: int| 0 <= x < prev.len() && prev[x] == k2;
                            assert(r@[x] == k2);
                        }
                        if k2 == k {
                            assert(r@[prev.len() as int] == k);
                        }
                    }
                    assert forall|k2: K|
                        r@.contains(k2) implies exists|j: int|
                        0 <= j < i + 1 && #[trigger] self.alive_at(j) && self.key_at(j) == k2 by {
                        if k2 == k {
                            assert(self.alive_at(i as int) && self.key_at(i as int) == k2);
                        } else {
                            assert(prev.contains(k2));
                        }
                    }
                }
            } else {
                proof {
                    assert(prefix2 =~= prefix);
                }
            }
            i += 1;
        }
        proof {
            assert(Set::new(|j: int| 0 <= j < n && self.alive_at(j)) =~= self.alive_ids());
            assert forall|k: K| r@.contains(k) == self@.contains_key(k) by {
                if r@.contains(k) {
                    let j = choose|j: int|
                        0 <= j < n && #[trigger] self.alive_at(j) && self.key_at(j) == k;
                    assert(self.spec_contains(k));
                }
                if self.spec_contains(k) {
                    let j = choose|j: int| #[trigger] self.alive_at(j) && self.key_at(j) == k;
                }
            }
        }
        r
    }

    /// All key/value pairs of the map, in bucket order: each key exactly
    /// once, each value a fully heap-owned rebuild of the stored one.
    pub fn pairs(&self) -> (r: Vec<(K, V)>)
        requires
            self.wf(),
        ensures
            forall|x: int|
                0 <= x < r@.len() ==> self@.contains_key((#[trigger] r@[x]).0) && r@[x].1.model()
                    == self@[r@[x].0].model(),
            forall|k: K| self@.contains_key(k) ==> exists|x: int|
                0 <= x < r@.len() && (#[trigger] r@[x]).0 == k,
            r@.len() == self.spec_len(),
    {
        broadcast use vstd::set::group_set_axioms;

        let n = self.entries.len();
        let mut r: Vec<(K, V)> = Vec::new();
        let mut i: usize = 0;
        proof {
            assert(Set::new(|j: int| 0 <= j < 0 && self.alive_at(j)) =~= Set::<int>::empty());
        }
        while i < n
            invariant
                self.wf(),
                i <= n,
                n == self.s().len(),
                forall|x: int|
                    0 <= x < r@.len() ==> self.alive_at(self.slot_of((#[trigger] r@[x]).0))
                        && self.key_at(self.slot_of(r@[x].0)) == r@[x].0 && self.spec_contains(
                        r@[x].0,
                    ) && r@[x].1.model() == self@[r@[x].0].model(),
                forall|j: int|
                    0 <= j < i && #[trigger] self.alive_at(j) ==> exists|x: int|
                        0 <= x < r@.len() && (#[trigger] r@[x]).0 == self.key_at(j),
                Set::new(|j: int| 0 <= j < i && self.alive_at(j)).finite(),
                r@.len() == Set::new(|j: int| 0 <= j < i && self.alive_at(j)).len(),
            decreases n - i,
        {
            let ghost prefix = Set::new(|j: int| 0 <= j < i && self.alive_at(j));
            let ghost prefix2 = Set::new(|j: int| 0 <= j < i + 1 && self.alive_at(j));
            let e = self.entries.get_ref(i);
            if e.alive() {
                let k = *e.key();
                let v = e.value().decompact();
                proof {
                    self.lemma_alive_slot_view(i as int);
                }
                let ghost prev = r@;
                r.push((k, v));
                proof {
                    assert(prefix2 =~= prefix.insert(i as int));
                    assert forall|j: int|
                        0 <= j < i + 1 && #[trigger] self.alive_at(j) implies exists|x: int|
                        0 <= x < r@.len() && (#[trigger] r@[x]).0 == self.key_at(j) by {
                        if j == i {
                            assert(r@[prev.len() as int].0 == self.key_at(j));
                        } else {
                            let x = choose|x: int|
                                0 <= x < prev.len() && (#[trigger] prev[x]).0 == self.key_at(j);
                            assert(r@[x].0 == self.key_at(j));
                        }
                    }
                }
            } else {
                proof {
                    assert(prefix2 =~= prefix);
                }
            }
            i += 1;
        }
        proof {
            assert(Set::new(|j: int| 0 <= j < n && self.alive_at(j)) =~= self.alive_ids());
            assert forall|k: K| self@.contains_key(k) implies exists|x: int|
                0 <= x < r@.len() && (#[trigger] r@[x]).0 == k by {
                let j = choose|j: int| #[trigger] self.alive_at(j) && self.key_at(j) == k;
                assert(0 <= j < n && self.alive_at(j));
            }
        }
        r
    }

    /// All values of the map, in bucket order, each a fully heap-owned
    /// rebuild of the stored one.
    pub fn values(&self) -> (r: Vec<V>)
        requires
            self.wf(),
        ensures
            r@.len() == self.spec_len(),
            exists|ks: Seq<K>|
                #![auto]
                ks.len() == r@.len() && forall|x: int|
                    0 <= x < r@.len() ==> self@.contains_key(#[trigger] ks[x]) && r@[x].model()
                        == self@[ks[x]].model(),
    {
        let pairs = self.pairs();
        let mut r: Vec<V> = Vec::new();
        let ghost mut ks: Seq<K> = Seq::empty();
        let mut rest = pairs;
        while rest.len() > 0
            invariant
                r@.len() + rest@.len() == self.spec_len(),
                ks.len() == r@.len(),
                forall|x: int|
                    0 <= x < r@.len() ==> self@.contains_key(#[trigger] ks[x]) && r@[x].model()
                        == self@[ks[x]].model(),
                forall|x: int|
                    0 <= x < rest@.len() ==> self@.contains_key((#[trigger] rest@[x]).0)
                        && rest@[x].1.model() == self@[rest@[x].0].model(),
            decreases rest@.len(),
        {
            let ghost prev = rest@;
            let (k, v) = rest.remove(0);
            proof {
                prev.remove_ensures(0);
                ks = ks.push(k);
            }
            r.push(v);
        }
        proof {
            assert(ks.len() == r@.len() && forall|x: int|
                0 <= x < r@.len() ==> self@.contains_key(#[trigger] ks[x]) && r@[x].model()
                    == self@[ks[x]].model());
        }
        r
    }

    /// The alive count equals the number of distinct keys the map holds.
    pub proof fn lemma_len_counts_keys(&self)
        requires
            self.wf(),
        ensures
            self@.dom().finite(),
            self@.dom().len() == self.spec_len(),
    {
        broadcast use vstd::set::group_set_axioms;

        let f = |i: int| self.key_at(i);
        assert forall|i: int, j: int|
            self.alive_ids().contains(i) && self.alive_ids().contains(j) && #[trigger] f(i)
                == #[trigger] f(j) implies i == j by {
            assert(self.key_at(i) == self.key_at(j));
        }
        crate::probe::lemma_injective_map_len(self.alive_ids(), f);
        assert forall|k: K| #[trigger] self.alive_ids().map(f).contains(k) == self@.dom().contains(
            k,
        ) by {
            if self.alive_ids().map(f).contains(k) {
                let i = choose|i: int| self.alive_ids().contains(i) && f(i) == k;
                assert(self.alive_at(i) && self.key_at(i) == k);
            }
            if self.spec_contains(k) {
                let i = choose|i: int| #[trigger] self.alive_at(i) && self.key_at(i) == k;
                assert(self.alive_ids().contains(i) && f(i) == k);
            }
        }
        assert(self.alive_ids().map(f) =~= self@.dom());
    }

    /// At any time at least as many buckets are used as are alive.
    pub proof fn lemma_used_at_least_alive(&self)
        requires
            self.wf(),
        ensures
            self.spec_len_used() >= self.spec_len(),
    {
        self.lemma_ids_in_range();
    }

    /// The bucket count is always a prime of the sieve's range.
    pub proof fn lemma_capacity_prime(&self)
        requires
            self.wf(),
        ensures
            is_prime(self.spec_capacity() as int),
            2 <= self.spec_capacity() <= MAX_PRIME,
    {
    }
}

impl<K: Key, I: Compact> OpenAddressingMap<K, CompactVec<I>> {
    /// Push `item` onto the vector stored at `query`, creating a fresh
    /// one-element vector when the key is absent.  Pushing onto an
    /// existing vector changes neither counter (though the table may have
    /// grown first, as every insert may).
    #[verifier::rlimit(40)]
    pub fn push_at(&mut self, query: K, item: I)
        requires
            old(self).wf(),
            old(self).growth_in_sieve(),
            old(self)@.contains_key(query) ==> (old(self)@[query]@.len() == old(self)@[query].spec_cap() ==> 2 * old(self)@[query].spec_cap() <= usize::MAX),
        ensures
            final(self).wf(),
            final(self)@.dom() == old(self)@.dom().insert(query),
            forall|k: K|
                k != query && old(self)@.contains_key(k) ==> final(self)@[k] == old(self)@[k],
            !old(self)@.contains_key(query) ==> final(self)@[query]@ == seq![item] && final(self).spec_len() == old(self).spec_len() + 1 && final(self).spec_len_used() <= old(self).spec_len_used() + 1,
            old(self)@.contains_key(query) ==> final(self)@[query]@.len() == old(self)@[query]@.len() + 1 && seq_models(final(self)@[query]@) == seq_models(
                old(self)@[query]@,
            ).push(item.model()) && final(self).spec_len() == old(self).spec_len() && final(self).spec_len_used() <= old(self).spec_len_used(),
    {
        proof {
            self.lemma_used_at_least_alive();
        }
        self.ensure_capacity();
        let ghost mid = *self;
        let found = self.find_index(query);
        match found {
            Some(idx) => {
                proof {
                    self.lemma_alive_slot_view(idx as int);
                }
                let ghost pre = *self;
                let mut entry = self.entries.replace_at(idx, Entry::default());
                match &mut entry.inner {
                    Some(kv) => {
                        kv.1.push(item);
                    },
                    None => {
                        proof {
                            assert(false);
                        }
                    },
                }
                let _ = self.entries.replace_at(idx, entry);
                proof {
                    broadcast use vstd::set::group_set_axioms;

                    let id = idx as int;
                    let e2 = self.s()[id];
                    assert(self.s() =~= pre.s().update(id, e2));
                    assert(e2.spec_alive() && e2.spec_key() == query && e2.hash
                        == pre.s()[id].hash);
                    assert forall|j: int| j != id implies (self.alive_at(j) == pre.alive_at(j)
                        && self.used_at(j) == pre.used_at(j)) by {
                        if 0 <= j < self.s().len() {
                            assert(self.s()[j] == pre.s()[j]);
                        }
                    }
                    assert(self.alive_ids() =~= pre.alive_ids());
                    assert(self.used_ids() =~= pre.used_ids());
                    assert forall|j: int, j2: int|
                        self.alive_at(j) && self.alive_at(j2) && #[trigger] self.key_at(j)
                            == #[trigger] self.key_at(j2) implies j == j2 by {
                        if j != j2 {
                            assert(pre.alive_at(j) && pre.alive_at(j2));
                            assert(pre.key_at(j) == pre.key_at(j2));
                        }
                    }
                    assert forall|j: int| #[trigger] self.alive_at(j) implies self.s()[j].hash
                        == self.key_at(j).spec_hash() by {
                        assert(pre.alive_at(j));
                        if j != id {
                            assert(self.s()[j] == pre.s()[j]);
                        }
                    }
                    assert forall|j: int| #[trigger] self.alive_at(j) implies self.probe_reaches(
                        j,
                    ) by {
                        assert(pre.alive_at(j));
                        assert(self.s()[j].hash == pre.s()[j].hash);
                        Self::lemma_probe_reaches_transfer(&pre, self, j);
                    }
                    assert forall|k2: K| #[trigger] self.spec_contains(k2) == (k2 == query
                        || pre.spec_contains(k2)) by {
                        if self.spec_contains(k2) {
                            let j = choose|j: int|
                                #[trigger] self.alive_at(j) && self.key_at(j) == k2;
                            if j != id {
                                assert(pre.alive_at(j) && pre.key_at(j) == k2);
                            }
                        }
                        if k2 == query {
                            assert(self.alive_at(id) && self.key_at(id) == query);
                        } else if pre.spec_contains(k2) {
                            let j = choose|j: int|
                                #[trigger] pre.alive_at(j) && pre.key_at(j) == k2;
                            assert(j != id);
                            assert(self.alive_at(j) && self.key_at(j) == k2);
                        }
                    }
                    assert forall|k2: K| #[trigger] self.spec_contains(k2) implies self@[k2] == (
                    if k2 == query {
                        e2.spec_value()
                    } else {
                        pre@[k2]
                    }) by {
                        let j = self.slot_of(k2);
                        assert(self.alive_at(j) && self.key_at(j) == k2);
                        if k2 == query {
                            if j != id {
                                assert(pre.alive_at(j) && pre.key_at(j) == query);
                                assert(pre.key_at(j) == pre.key_at(id));
                                assert(false);
                            }
                        } else {
                            assert(j != id);
                            assert(pre.alive_at(j) && pre.key_at(j) == k2);
                            pre.lemma_alive_slot_view(j);
                            assert(self@[k2] == self.value_at(j));
                            assert(self.s()[j] == pre.s()[j]);
                        }
                    }
                    assert(self@ =~= pre@.insert(query, e2.spec_value()));
                    assert(self@.dom() =~= old(self)@.dom().insert(query));
                }
            },
            None => {
                let mut v: CompactVec<I> = CompactVec::new();
                v.push(item);
                proof {
                    assert(v@ =~= seq![item]);
                }
                let _ = self.insert_inner(query, v);
                proof {
                    assert(self@.dom() =~= old(self)@.dom().insert(query));
                }
            },
        }
    }

    /// The elements of the vector at `query`, each fully heap-owned;
    /// empty if the key is absent.
    pub fn get_iter(&self, query: K) -> (r: Vec<I>)
        requires
            self.wf(),
        ensures
            self@.contains_key(query) ==> seq_models(r@) == seq_models(self@[query]@),
            !self@.contains_key(query) ==> r@ == Seq::<I>::empty(),
    {
        match self.get(query) {
            Some(v) => {
                let mut c = v.decompacted();
                c.take_items()
            },
            None => Vec::new(),
        }
    }

    /// Remove the vector at `query` and hand back its elements, in order;
    /// empty if the key was absent.
    pub fn remove_iter(&mut self, query: K) -> (r: Vec<I>)
        requires
            old(self).wf(),
        ensures
            final(self).wf(),
            final(self)@ == old(self)@.remove(query),
            old(self)@.contains_key(query) ==> r@ == old(self)@[query]@,
            !old(self)@.contains_key(query) ==> r@ == Seq::<I>::empty(),
    {
        match self.remove(query) {
            Some(mut v) => v.take_items(),
            None => Vec::new(),
        }
    }
}

impl<K: Key, V: Compact> OpenAddressingMap<K, V> {
    /// The key/value-model map described by the first `t` buckets.
    spec fn model_map_prefix(s: Seq<Entry<K, V>>, t: int) -> Map<K, V::Model>
        decreases t,
    {
        if t <= 0 {
            Map::empty()
        } else {
            let m = Self::model_map_prefix(s, t - 1);
            if s[t - 1].spec_alive() {
                m.insert(s[t - 1].spec_key(), s[t - 1].spec_value().model())
            } else {
                m
            }
        }
    }

    /// Bucket arrays with equal entry models describe equal model maps.
    proof fn lemma_model_map_prefix_eq(s1: Seq<Entry<K, V>>, s2: Seq<Entry<K, V>>, t: int)
        requires
            0 <= t <= s1.len(),
            t <= s2.len(),
            forall|j: int| 0 <= j < t ==> (#[trigger] s1[j]).model() == s2[j].model(),
        ensures
            Self::model_map_prefix(s1, t) == Self::model_map_prefix(s2, t),
        decreases t,
    {
        if t > 0 {
            Self::lemma_model_map_prefix_eq(s1, s2, t - 1);
            assert(s1[t - 1].model() == s2[t - 1].model());
            assert(s1[t - 1].model().2 == s2[t - 1].model().2);
            if s1[t - 1].spec_alive() {
                assert(s1[t - 1].model().2 == Some(
                    (s1[t - 1].spec_key(), s1[t - 1].spec_value().model()),
                ));
            }
        }
    }

    /// A state whose buckets carry the same entry models as a well-formed
    /// one, with the same counters, is itself well-formed and holds the
    /// same keys with model-equal values.
    proof fn lemma_transfer_from_model_eq(pre: &Self, post: &Self)
        requires
            pre.wf(),
            post.s().len() == pre.s().len(),
            post.entries@.len() == post.entries.spec_cap(),
            post.number_alive == pre.number_alive,
            post.number_used == pre.number_used,
            forall|j: int| 0 <= j < pre.s().len() ==> (#[trigger] post.s()[j]).model()
                == pre.s()[j].model(),
        ensures
            post.wf(),
            post@.dom() == pre@.dom(),
            forall|k: K| pre@.contains_key(k) ==> post@[k].model() == pre@[k].model(),
    {
        broadcast use vstd::set::group_set_axioms;

        let n = pre.s().len() as int;
        assert forall|j: int| 0 <= j < n implies (post.s()[j].spec_alive()
            == pre.s()[j].spec_alive() && post.s()[j].spec_used() == pre.s()[j].spec_used()
            && post.s()[j].hash == pre.s()[j].hash && (pre.s()[j].spec_alive()
            ==> post.s()[j].spec_key() == pre.s()[j].spec_key()
            && post.s()[j].spec_value().model() == pre.s()[j].spec_value().model())) by {
            assert(post.s()[j].model() == pre.s()[j].model());
            assert(post.s()[j].model().0 == pre.s()[j].model().0);
            assert(post.s()[j].model().1 == pre.s()[j].model().1);
            assert(post.s()[j].model().2 == pre.s()[j].model().2);
            if pre.s()[j].spec_alive() {
                assert(pre.s()[j].model().2 == Some(
                    (pre.s()[j].spec_key(), pre.s()[j].spec_value().model()),
                ));
            }
        }
        assert(post.alive_ids() =~= pre.alive_ids());
        assert(post.used_ids() =~= pre.used_ids());
        assert forall|j: int, j2: int|
            post.alive_at(j) && post.alive_at(j2) && #[trigger] post.key_at(j)
                == #[trigger] post.key_at(j2) implies j == j2 by {
            assert(pre.alive_at(j) && pre.alive_at(j2));
            assert(pre.key_at(j) == pre.key_at(j2));
        }
        assert forall|j: int| #[trigger] post.alive_at(j) implies post.s()[j].hash == post.key_at(
            j,
        ).spec_hash() by {
            assert(pre.alive_at(j));
        }
        assert forall|j: int| #[trigger] post.alive_at(j) implies post.probe_reaches(j) by {
            assert(pre.alive_at(j));
            Self::lemma_probe_reaches_transfer(pre, post, j);
        }
        assert forall|k: K| #[trigger] post.spec_contains(k) == pre.spec_contains(k) by {
            if post.spec_contains(k) {
                let j = choose|j: int| #[trigger] post.alive_at(j) && post.key_at(j) == k;
                assert(pre.alive_at(j) && pre.key_at(j) == k);
            }
            if pre.spec_contains(k) {
                let j = choose|j: int| #[trigger] pre.alive_at(j) && pre.key_at(j) == k;
                assert(post.alive_at(j) && post.key_at(j) == k);
            }
        }
        assert(post@.dom() =~= pre@.dom());
        assert forall|k: K| pre@.contains_key(k) implies post@[k].model() == pre@[k].model() by {
            let j = pre.slot_of(k);
            assert(pre.alive_at(j) && pre.key_at(j) == k);
            let j2 = post.slot_of(k);
            assert(post.alive_at(j2) && post.key_at(j2) == k);
            assert(pre.alive_at(j2) && pre.key_at(j2) == k);
            assert(j2 == j);
        }
    }

    /// Move the map into compact storage: the two counters ride along and
    /// the bucket array compacts element by element.  Like
    /// [`Compact::compact`], with well-formedness and counters pinned.
    pub fn compacted(self) -> (r: Self)
        ensures
            self.wf() ==> r.wf() && r@.dom() == self@.dom() && (forall|k: K|
                self@.contains_key(k) ==> r@[k].model() == self@[k].model()),
            r.spec_len() == self.spec_len(),
            r.spec_len_used() == self.spec_len_used(),
            r.spec_capacity() == self.spec_capacity(),
            r.spec_still_compact(),
    {
        let OpenAddressingMap { number_alive, number_used, entries } = self;
        let c = entries.compacted();
        let r = OpenAddressingMap { number_alive, number_used, entries: c };
        proof {
            assert forall|j: int| 0 <= j < r.s().len() implies (#[trigger] r.s()[j]).model()
                == self.s()[j].model() by {
                assert(seq_models(r.s())[j] == seq_models(self.s())[j]);
            }
            if self.wf() {
                Self::lemma_transfer_from_model_eq(&self, &r);
            }
        }
        r
    }

    /// Rebuild a fully heap-owned equivalent of the map.  Like
    /// [`Compact::decompact`], with well-formedness and counters pinned.
    pub fn decompacted(&self) -> (r: Self)
        ensures
            self.wf() ==> r.wf() && r@.dom() == self@.dom() && (forall|k: K|
                self@.contains_key(k) ==> r@[k].model() == self@[k].model()),
            r.spec_len() == self.spec_len(),
            r.spec_len_used() == self.spec_len_used(),
            r.spec_capacity() == self.spec_capacity(),
            r.spec_all_free(),
    {
        let c = self.entries.decompacted();
        let r = OpenAddressingMap {
            number_alive: self.number_alive,
            number_used: self.number_used,
            entries: c,
        };
        proof {
            assert forall|j: int| 0 <= j < r.s().len() implies (#[trigger] r.s()[j]).model()
                == self.s()[j].model() by {
                assert(seq_models(r.s())[j] == seq_models(self.s())[j]);
            }
            if self.wf() {
                Self::lemma_transfer_from_model_eq(self, &r);
            }
        }
        r
    }
}

impl<K: Key, V: Compact> Compact for OpenAddressingMap<K, V> {
    type Model = (u32, u32, Map<K, V::Model>);

    closed spec fn model(&self) -> (u32, u32, Map<K, V::Model>) {
        (
            self.number_alive,
            self.number_used,
            Self::model_map_prefix(self.s(), self.s().len() as int),
        )
    }

    closed spec fn spec_still_compact(&self) -> bool {
        self.entries.spec_still_compact()
    }

    closed spec fn spec_all_free(&self) -> bool {
        self.entries.spec_all_free()
    }

    closed spec fn spec_tail_bytes(&self) -> nat {
        self.entries.spec_tail_bytes()
    }

    fn is_still_compact(&self) -> (b: bool) {
        self.entries.is_still_compact()
    }

    fn dynamic_size_bytes(&self) -> (n: usize) {
        self.entries.dynamic_size_bytes()
    }

    fn compact(self) -> (r: Self) {
        let ghost s0 = self.s();
        let OpenAddressingMap { number_alive, number_used, entries } = self;
        let c = entries.compacted();
        let r = OpenAddressingMap { number_alive, number_used, entries: c };
        proof {
            assert forall|j: int| 0 <= j < s0.len() implies (#[trigger] r.s()[j]).model()
                == s0[j].model() by {
                assert(seq_models(r.s())[j] == seq_models(s0)[j]);
            }
            Self::lemma_model_map_prefix_eq(r.s(), s0, s0.len() as int);
        }
        r
    }

    fn decompact(&self) -> (r: Self) {
        let c = self.entries.decompacted();
        let r = OpenAddressingMap {
            number_alive: self.number_alive,
            number_used: self.number_used,
            entries: c,
        };
        proof {
            assert forall|j: int| 0 <= j < self.s().len() implies (#[trigger] r.s()[j]).model()
                == self.s()[j].model() by {
                assert(seq_models(r.s())[j] == seq_models(self.s())[j]);
            }
            Self::lemma_model_map_prefix_eq(r.s(), self.s(), self.s().len() as int);
        }
        r
    }
}

impl<K: Key, V: Compact> Clone for OpenAddressingMap<K, V> {
    /// Clone by rebuilding every bucket through the relocation protocol:
    /// the copy holds the same keys, with model-equal values, and the same
    /// counters and bucket count.
    fn clone(&self) -> (r: Self)
        ensures
            self.wf() ==> r.wf() && r@.dom() == self@.dom() && (forall|k: K|
                self@.contains_key(k) ==> r@[k].model() == self@[k].model()),
            r.spec_len() == self.spec_len(),
            r.spec_len_used() == self.spec_len_used(),
            r.spec_capacity() == self.spec_capacity(),
    {
        self.decompacted()
    }
}

impl<K: Key, V: Compact> Default for OpenAddressingMap<K, V> {
    /// An empty map with the default initial bucket count.
    fn default() -> (m: Self)
        ensures
            m.wf(),
            m@ == Map::<K, V>::empty(),
            m.spec_len() == 0,
            m.spec_len_used() == 0,
            m.spec_capacity() == 5,
    {
        let m = Self::with_capacity(5);
        proof {
            assert(is_prime(5)) by {
                assert forall|d: int| 2 <= d < 5 implies #[trigger] (5int % d) != 0 by {
                    assert(5int % 2 == 1);
                    assert(5int % 3 == 2);
                    assert(5int % 4 == 1);
                }
            }
            if m.spec_capacity() > 5 {
                assert(!is_prime(5));
            }
        }
        m
    }
}

/// The map described by a sequence of key/value pairs, later pairs
/// overriding earlier ones.
pub open spec fn map_of_pairs<K, V>(s: Seq<(K, V)>) -> Map<K, V>
    decreases s.len(),
{
    if s.len() == 0 {
        Map::empty()
    } else {
        map_of_pairs(s.drop_last()).insert(s.last().0, s.last().1)
    }
}

impl<K: Key, V: Compact> OpenAddressingMap<K, V> {
    /// Build a map from key/value pairs, inserted in order; a later pair
    /// overrides an earlier one with the same key.  The initial bucket
    /// count fits all pairs, and the pair count is capped so that even a
    /// table of nothing but distinct keys can always grow within the
    /// prime sieve's range.
    pub fn from_iter(pairs: Vec<(K, V)>) -> (m: Self)
        requires
            pairs@.len() <= 200_000,
        ensures
            m.wf(),
            m@ == map_of_pairs(pairs@),
    {
        let ghost p0 = pairs@;
        let n = pairs.len();
        let mut m = Self::with_capacity(n);
        let mut rest = pairs;
        proof {
            assert(rest@ =~= p0.subrange(0, p0.len() as int));
            assert(m@ =~= map_of_pairs(p0.take(0)));
        }
        while rest.len() > 0
            invariant
                m.wf(),
                rest@.len() <= p0.len() <= 200_000,
                rest@ == p0.subrange(p0.len() - rest@.len(), p0.len() as int),
                m@ == map_of_pairs(p0.take(p0.len() - rest@.len())),
                m.spec_len() <= p0.len() - rest@.len(),
                m.spec_len_used() <= p0.len() - rest@.len(),
            decreases rest@.len(),
        {
            let ghost c = p0.len() - rest@.len();
            let ghost prevr = rest@;
            proof {
                if m.spec_len_used() > m.spec_capacity() / 2 {
                    assert(m.spec_capacity() < 2 * m.spec_len_used());
                }
            }
            let (k, v) = rest.remove(0);
            m.insert(k, v);
            proof {
                prevr.remove_ensures(0);
                assert(rest@ =~= p0.subrange(p0.len() - rest@.len(), p0.len() as int));
                assert(p0.take(c + 1).drop_last() =~= p0.take(c));
                assert(p0.take(c + 1).last() == p0[c]);
                assert(m@ == map_of_pairs(p0.take(c + 1)));
            }
        }
        proof {
            assert(p0.take(p0.len() as int) =~= p0);
        }
        m
    }
}

/// A binding just inserted is what a lookup returns, and an insertion at
/// one key leaves every other key's binding alone.
pub proof fn lemma_insert_then_get<K, V>(m: Map<K, V>, k: K, v: V, k2: K)
    ensures
        m.insert(k, v).contains_key(k),
        m.insert(k, v)[k] == v,
        k2 != k ==> m.insert(k, v).contains_key(k2) == m.contains_key(k2),
        k2 != k && m.contains_key(k2) ==> m.insert(k, v)[k2] == m[k2],
{
}

/// A removed key reads as absent, and a removal at one key leaves every
/// other key's binding alone.
pub proof fn lemma_remove_then_get<K, V>(m: Map<K, V>, k: K, k2: K)
    ensures
        !m.remove(k).contains_key(k),
        k2 != k ==> m.remove(k).contains_key(k2) == m.contains_key(k2),
        k2 != k && m.contains_key(k2) ==> m.remove(k)[k2] == m[k2],
{
}

} // verus!
