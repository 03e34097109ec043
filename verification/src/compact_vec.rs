//! A relocatable dynamic array.
//!
//! `CompactVec` stores a count, a capacity and a storage-mode tag.  Its
//! elements live either on the general heap (free mode) or inside an
//! enclosing relocation block (compact mode); growth always spills to the
//! heap.  Operations that move single elements around (insert, remove,
//! growth) rebuild each moved element through the relocation protocol, so
//! that an element's own embedded interior is never silently carried to a
//! slot it does not belong to.
//!
//! The view of a vector is the sequence of its elements; the model (in the
//! sense of the relocation protocol) is the sequence of their models.

use vstd::prelude::*;
use vstd::pervasive::VecAdditionalExecFns;
use crate::compact::{
    lemma_seq_tail_bytes_prefix, seq_all_free, seq_models, seq_still_compact, seq_tail_bytes,
    Compact,
};
use crate::storage::StorageMode;

verus! {

/// A dynamically-sized vector whose backing storage is either heap-owned
/// or embedded in an enclosing relocation block.
pub struct CompactVec<T> {
    items: Vec<T>,
    cap: usize,
    mode: StorageMode,
}

impl<T> View for CompactVec<T> {
    type V = Seq<T>;

    closed spec fn view(&self) -> Seq<T> {
        self.items@
    }
}

impl<T> CompactVec<T> {
    /// The number of elements never exceeds the allocated capacity.
    #[verifier::type_invariant]
    pub closed spec fn wf(&self) -> bool {
        self.items@.len() <= self.cap
    }

    /// Allocated slots.
    pub closed spec fn spec_cap(&self) -> usize {
        self.cap
    }

    /// Where the backing storage currently lives.
    pub closed spec fn spec_mode(&self) -> StorageMode {
        self.mode
    }

    /// Get the number of elements in the vector.
    pub fn len(&self) -> (n: usize)
        ensures
            n == self@.len(),
    {
        self.items.len()
    }

    /// Is the vector empty?
    pub fn is_empty(&self) -> (b: bool)
        ensures
            b == (self@.len() == 0),
    {
        self.items.len() == 0
    }

    /// Create a new, empty vector.  Nothing is allocated; the storage tag
    /// is a null compact pointer.
    pub fn new() -> (v: CompactVec<T>)
        ensures
            v@ == Seq::<T>::empty(),
            v.spec_cap() == 0,
            v.spec_mode() == StorageMode::Compact,
    {
        CompactVec { items: Vec::new(), cap: 0, mode: StorageMode::Compact }
    }

    /// Create a new, empty vector with `cap` slots of free storage.
    pub fn with_capacity(cap: usize) -> (v: CompactVec<T>)
        ensures
            v@ == Seq::<T>::empty(),
            v.spec_cap() == cap,
            v.spec_mode() == StorageMode::Free,
    {
        CompactVec { items: Vec::with_capacity(cap), cap, mode: StorageMode::Free }
    }

    /// Current capacity.
    pub fn capacity(&self) -> (n: usize)
        ensures
            n == self.spec_cap(),
    {
        self.cap
    }

    /// Read the element at `index`.
    pub fn get_ref(&self, index: usize) -> (r: &T)
        requires
            index < self@.len(),
        ensures
            *r == self@[index as int],
    {
        &self.items[index]
    }

    /// View the elements as a slice.
    pub fn as_slice(&self) -> (r: &[T])
        ensures
            r@ == self@,
    {
        self.items.as_slice()
    }

    /// Replace the element at `index`, returning the previous one.  The
    /// storage bookkeeping is untouched.
    pub fn replace_at(&mut self, index: usize, value: T) -> (prev: T)
        requires
            index < old(self)@.len(),
        ensures
            final(self)@ == old(self)@.update(index as int, value),
            prev == old(self)@[index as int],
            final(self).spec_cap() == old(self).spec_cap(),
            final(self).spec_mode() == old(self).spec_mode(),
    {
        proof {
            use_type_invariant(&*self);
        }
        let mut items: Vec<T> = Vec::new();
        core::mem::swap(&mut items, &mut self.items);
        let mut v = value;
        items.set_and_swap(index, &mut v);
        core::mem::swap(&mut items, &mut self.items);
        v
    }

    /// Empty the vector and hand its elements back, in order.  The vector
    /// itself returns to its freshly-created state.
    pub fn take_items(&mut self) -> (r: Vec<T>)
        ensures
            r@ == old(self)@,
            final(self)@ == Seq::<T>::empty(),
            final(self).spec_cap() == 0,
            final(self).spec_mode() == StorageMode::Compact,
    {
        let mut items: Vec<T> = Vec::new();
        core::mem::swap(&mut items, &mut self.items);
        self.cap = 0;
        self.mode = StorageMode::Compact;
        items
    }
}

impl<T: Compact> CompactVec<T> {
    /// Double the capacity, spilling onto the heap.  Every element is
    /// rebuilt through the relocation protocol: a raw copy of an element
    /// whose interior is embedded in the old storage would carry pointers
    /// into a region this vector no longer owns.
    fn double_buf(&mut self)
        requires
            2 * old(self).spec_cap() <= usize::MAX,
        ensures
            final(self)@.len() == old(self)@.len(),
            seq_models(final(self)@) == seq_models(old(self)@),
            seq_all_free(final(self)@),
            final(self).spec_cap() == (if old(self).spec_cap() == 0 {
                1int
            } else {
                2 * old(self).spec_cap()
            }),
            final(self).spec_mode() == StorageMode::Free,
            final(self)@.len() < final(self).spec_cap(),
    {
        proof {
            use_type_invariant(&*self);
        }
        let new_cap = if self.cap == 0 {
            1
        } else {
            self.cap * 2
        };
        let n = self.items.len();
        let mut out: Vec<T> = Vec::new();
        for i in 0..n
            invariant
                n == self.items@.len(),
                self.items@ == old(self)@,
                self.cap == old(self).spec_cap(),
                out@.len() == i,
                forall|k: int|
                    0 <= k < i ==> (#[trigger] out@[k]).model() == self.items@[k].model()
                        && out@[k].spec_all_free(),
        {
            let d = self.items[i].decompact();
            out.push(d);
        }
        self.items = out;
        self.cap = new_cap;
        self.mode = StorageMode::Free;
        proof {
            assert(seq_models(self.items@) =~= seq_models(old(self)@));
        }
    }

    /// Push an item onto the vector; grows (onto the heap) when the
    /// capacity is exhausted.
    pub fn push(&mut self, value: T)
        requires
            old(self)@.len() == old(self).spec_cap() ==> 2 * old(self).spec_cap() <= usize::MAX,
        ensures
            final(self)@.len() == old(self)@.len() + 1,
            seq_models(final(self)@) == seq_models(old(self)@).push(value.model()),
            final(self)@[old(self)@.len() as int] == value,
            final(self)@.len() <= final(self).spec_cap(),
            old(self)@.len() < old(self).spec_cap() ==> final(self)@ == old(self)@.push(value)
                && final(self).spec_cap() == old(self).spec_cap() && final(self).spec_mode()
                == old(self).spec_mode(),
            old(self)@.len() == old(self).spec_cap() ==> final(self).spec_mode()
                == StorageMode::Free && final(self).spec_cap() == (if old(self).spec_cap() == 0 {
                1int
            } else {
                2 * old(self).spec_cap()
            }),
    {
        proof {
            use_type_invariant(&*self);
        }
        if self.items.len() == self.cap {
            self.double_buf();
        }
        let ghost mid = self.items@;
        let mut items: Vec<T> = Vec::new();
        core::mem::swap(&mut items, &mut self.items);
        items.push(value);
        core::mem::swap(&mut items, &mut self.items);
        proof {
            assert(seq_models(self.items@) =~= seq_models(mid).push(value.model()));
            if old(self)@.len() < old(self).spec_cap() {
                assert(self.items@ =~= old(self)@.push(value));
            }
        }
    }

    /// Push an item "at a position": the position is advisory and the item
    /// is appended, exactly as [`CompactVec::push`] does.
    pub fn push_at(&mut self, _index: usize, value: T)
        requires
            old(self)@.len() == old(self).spec_cap() ==> 2 * old(self).spec_cap() <= usize::MAX,
        ensures
            final(self)@.len() == old(self)@.len() + 1,
            seq_models(final(self)@) == seq_models(old(self)@).push(value.model()),
            final(self)@[old(self)@.len() as int] == value,
            old(self)@.len() < old(self).spec_cap() ==> final(self)@ == old(self)@.push(value),
    {
        self.push(value);
    }

    /// Pop and return the last element, if the vector was not empty.  The
    /// element is handed back fully heap-owned.
    pub fn pop(&mut self) -> (r: Option<T>)
        ensures
            final(self).spec_cap() == old(self).spec_cap(),
            final(self).spec_mode() == old(self).spec_mode(),
            old(self)@.len() == 0 ==> r is None && final(self)@ == old(self)@,
            old(self)@.len() > 0 ==> r is Some && final(self)@ == old(self)@.drop_last()
                && r.unwrap().model() == old(self)@.last().model() && r.unwrap().spec_all_free(),
    {
        proof {
            use_type_invariant(&*self);
        }
        let mut items: Vec<T> = Vec::new();
        core::mem::swap(&mut items, &mut self.items);
        let popped = items.pop();
        let r = match popped {
            Some(x) => Some(x.decompact()),
            None => None,
        };
        core::mem::swap(&mut items, &mut self.items);
        r
    }

    /// Insert a value at `index`, shifting later elements upwards.  Each
    /// shifted element is rebuilt through the relocation protocol.
    pub fn insert(&mut self, index: usize, value: T)
        requires
            index <= old(self)@.len(),
            old(self)@.len() == old(self).spec_cap() ==> 2 * old(self).spec_cap() <= usize::MAX,
        ensures
            final(self)@.len() == old(self)@.len() + 1,
            seq_models(final(self)@) == seq_models(old(self)@).insert(index as int, value.model()),
            final(self).spec_cap() == (if old(self)@.len() == old(self).spec_cap() {
                if old(self).spec_cap() == 0 {
                    1int
                } else {
                    2 * old(self).spec_cap()
                }
            } else {
                old(self).spec_cap() as int
            }),
    {
        proof {
            use_type_invariant(&*self);
        }
        if self.items.len() == self.cap {
            self.double_buf();
        }
        let ghost mid = self.items@;
        let mut items: Vec<T> = Vec::new();
        core::mem::swap(&mut items, &mut self.items);
        items.insert(index, value);
        let n = items.len();
        let mut j: usize = index + 1;
        while j < n
            invariant
                index < j <= n,
                n == items@.len(),
                items@.len() == mid.len() + 1,
                seq_models(items@) == seq_models(mid.insert(index as int, value)),
            decreases n - j,
        {
            let d = items[j].decompact();
            items.set(j, d);
            proof {
                assert(seq_models(items@) =~= seq_models(mid.insert(index as int, value)));
            }
            j += 1;
        }
        core::mem::swap(&mut items, &mut self.items);
        proof {
            crate::compact::lemma_seq_models_insert(mid, index as int, value);
        }
    }

    /// Remove and return the element at `index`, shifting later elements
    /// downwards.  Each shifted element is rebuilt through the relocation
    /// protocol, and the removed element is handed back fully heap-owned.
    pub fn remove(&mut self, index: usize) -> (r: T)
        requires
            index < old(self)@.len(),
        ensures
            r.model() == old(self)@[index as int].model(),
            r.spec_all_free(),
            final(self)@.len() == old(self)@.len() - 1,
            seq_models(final(self)@) == seq_models(old(self)@).remove(index as int),
            final(self).spec_cap() == old(self).spec_cap(),
            final(self).spec_mode() == old(self).spec_mode(),
    {
        proof {
            use_type_invariant(&*self);
        }
        let ghost s0 = self.items@;
        let mut items: Vec<T> = Vec::new();
        core::mem::swap(&mut items, &mut self.items);
        let x = items.remove(index);
        let n = items.len();
        let mut j: usize = index;
        while j < n
            invariant
                index <= j <= n,
                n == items@.len(),
                items@.len() + 1 == s0.len(),
                seq_models(items@) == seq_models(s0.remove(index as int)),
            decreases n - j,
        {
            let d = items[j].decompact();
            items.set(j, d);
            proof {
                assert(seq_models(items@) =~= seq_models(s0.remove(index as int)));
            }
            j += 1;
        }
        core::mem::swap(&mut items, &mut self.items);
        proof {
            crate::compact::lemma_seq_models_remove(s0, index as int);
        }
        x.decompact()
    }

    /// Remove and return the element at `index`, replacing it with the last
    /// element.  Does not preserve ordering, but is O(1).
    pub fn swap_remove(&mut self, index: usize) -> (r: T)
        requires
            index < old(self)@.len(),
        ensures
            r.model() == old(self)@[index as int].model(),
            r.spec_all_free(),
            final(self)@.len() == old(self)@.len() - 1,
            seq_models(final(self)@) == seq_models(
                old(self)@.update(index as int, old(self)@.last()).drop_last(),
            ),
            final(self).spec_cap() == old(self).spec_cap(),
            final(self).spec_mode() == old(self).spec_mode(),
    {
        proof {
            use_type_invariant(&*self);
        }
        let ghost s0 = self.items@;
        let mut items: Vec<T> = Vec::new();
        core::mem::swap(&mut items, &mut self.items);
        let x = items.swap_remove(index);
        if index < items.len() {
            let d = items[index].decompact();
            items.set(index, d);
        }
        core::mem::swap(&mut items, &mut self.items);
        proof {
            assert(seq_models(self.items@) =~= seq_models(
                s0.update(index as int, s0.last()).drop_last(),
            ));
        }
        x.decompact()
    }

    /// Truncate the vector to at most `desired_len` elements, dropping the
    /// rest.
    pub fn truncate(&mut self, desired_len: usize)
        ensures
            desired_len <= old(self)@.len() ==> final(self)@ == old(self)@.take(
                desired_len as int,
            ),
            desired_len > old(self)@.len() ==> final(self)@ == old(self)@,
            final(self).spec_cap() == old(self).spec_cap(),
            final(self).spec_mode() == old(self).spec_mode(),
    {
        proof {
            use_type_invariant(&*self);
        }
        let mut items: Vec<T> = Vec::new();
        core::mem::swap(&mut items, &mut self.items);
        items.truncate(desired_len);
        core::mem::swap(&mut items, &mut self.items);
    }

    /// Clear the vector; the capacity and storage mode are untouched.
    pub fn clear(&mut self)
        ensures
            final(self)@ == Seq::<T>::empty(),
            final(self).spec_cap() == old(self).spec_cap(),
            final(self).spec_mode() == old(self).spec_mode(),
    {
        self.truncate(0);
        proof {
            assert(self.items@ =~= Seq::<T>::empty());
        }
    }

    /// Append every element of a copyable slice.
    pub fn extend_from_copy_slice(&mut self, other: &[T])
        where
            T: Copy,
        requires
            2 * (old(self)@.len() + other@.len()) <= usize::MAX,
        ensures
            final(self)@.len() == old(self)@.len() + other@.len(),
            seq_models(final(self)@) == seq_models(old(self)@) + seq_models(other@),
            final(self)@.subrange(old(self)@.len() as int, final(self)@.len() as int) == other@,
    {
        proof {
            use_type_invariant(&*self);
        }
        let other_len = other.len();
        while self.items.len() + other_len > self.cap
            invariant
                other_len == other@.len(),
                self@.len() == old(self)@.len(),
                seq_models(self@) == seq_models(old(self)@),
                self@.len() <= self.spec_cap(),
                2 * (self@.len() + other@.len()) <= usize::MAX,
            decreases usize::MAX - self.spec_cap(),
        {
            self.double_buf();
        }
        let ghost mid = self.items@;
        let mut items: Vec<T> = Vec::new();
        core::mem::swap(&mut items, &mut self.items);
        let mut i: usize = 0;
        while i < other_len
            invariant
                i <= other_len,
                other_len == other@.len(),
                items@ == mid + other@.take(i as int),
            decreases other_len - i,
        {
            items.push(other[i]);
            proof {
                assert(items@ =~= mid + other@.take(i + 1));
            }
            i += 1;
        }
        core::mem::swap(&mut items, &mut self.items);
        proof {
            assert(other@.take(other@.len() as int) =~= other@);
            assert(seq_models(self.items@) =~= seq_models(mid) + seq_models(other@));
            assert(self.items@.subrange(mid.len() as int, self.items@.len() as int) =~= other@);
        }
    }

    /// Append every element of `other`, in order.
    pub fn extend(&mut self, other: Vec<T>)
        requires
            2 * (old(self)@.len() + other@.len()) <= usize::MAX,
        ensures
            final(self)@.len() == old(self)@.len() + other@.len(),
            seq_models(final(self)@) == seq_models(old(self)@) + seq_models(other@),
    {
        proof {
            use_type_invariant(&*self);
        }
        let ghost o0 = other@;
        let mut rest = other;
        while rest.len() > 0
            invariant
                rest@.len() <= o0.len(),
                rest@ == o0.subrange(o0.len() - rest@.len(), o0.len() as int),
                self@.len() + rest@.len() == old(self)@.len() + o0.len(),
                seq_models(self@) == seq_models(old(self)@) + seq_models(
                    o0.take(o0.len() - rest@.len()),
                ),
                self@.len() <= self.spec_cap(),
                2 * (self@.len() + rest@.len()) <= usize::MAX,
            decreases rest@.len(),
        {
            let ghost k = o0.len() - rest@.len();
            let ghost prev_rest = rest@;
            let x = rest.remove(0);
            self.push(x);
            proof {
                assert(rest@ == prev_rest.remove(0));
                prev_rest.remove_ensures(0);
                assert(rest@.len() == prev_rest.len() - 1);
                assert(prev_rest == o0.subrange(k, o0.len() as int));
                assert forall|j: int|
                    0 <= j < rest@.len() implies rest@[j] == o0.subrange(
                    k + 1,
                    o0.len() as int,
                )[j] by {
                    assert(prev_rest.remove(0)[j] == prev_rest[j + 1]);
                    assert(prev_rest[j + 1] == o0.subrange(k, o0.len() as int)[j + 1]);
                    assert(o0.subrange(k, o0.len() as int)[j + 1] == o0[k + j + 1]);
                    assert(o0.subrange(k + 1, o0.len() as int)[j] == o0[k + 1 + j]);
                }
                assert(rest@ =~= o0.subrange(k + 1, o0.len() as int));
                assert(k + 1 == o0.len() - rest@.len());
                assert(seq_models(self@) =~= seq_models(old(self)@) + seq_models(
                    o0.take(k + 1),
                ));
            }
        }
        proof {
            assert(o0.take(o0.len() as int) =~= o0);
        }
    }

    /// Drain the vector: hand back an owning iterator over fully
    /// heap-owned rebuilds of the elements, and reset the vector to its
    /// freshly-created state.
    pub fn drain(&mut self) -> (it: IntoIter<T>)
        ensures
            final(self)@ == Seq::<T>::empty(),
            final(self).spec_cap() == 0,
            final(self).spec_mode() == StorageMode::Compact,
            it.remaining().len() == old(self)@.len(),
            seq_models(it.remaining()) == seq_models(old(self)@),
            seq_all_free(it.remaining()),
    {
        let ghost s0 = self@;
        let mut items = self.take_items();
        let n = items.len();
        let mut i: usize = 0;
        while i < n
            invariant
                i <= n,
                n == items@.len(),
                items@.len() == s0.len(),
                forall|k: int| i <= k < n ==> items@[k] == s0[k],
                forall|k: int|
                    0 <= k < i ==> (#[trigger] items@[k]).model() == s0[k].model()
                        && items@[k].spec_all_free(),
            decreases n - i,
        {
            let d = items[i].decompact();
            items.set(i, d);
            i += 1;
        }
        proof {
            assert(seq_models(items@) =~= seq_models(s0));
        }
        IntoIter { items }
    }

    /// Consume the vector and iterate over its elements as they are, in
    /// order.
    pub fn into_iter(self) -> (it: IntoIter<T>)
        ensures
            it.remaining() == self@,
    {
        let mut this = self;
        let items = this.take_items();
        IntoIter { items }
    }

    /// Build a vector from a sequence of elements, in order; the backing
    /// storage is heap-owned and sized exactly.
    pub fn from_iter(items: Vec<T>) -> (v: CompactVec<T>)
        ensures
            v@ == items@,
            v.spec_cap() == items@.len(),
            v.spec_mode() == StorageMode::Free,
    {
        let cap = items.len();
        CompactVec { items, cap, mode: StorageMode::Free }
    }

    /// Keep only the elements the predicate accepts, preserving their
    /// order; capacity and storage mode are untouched.
    pub fn retain<F: Fn(&T) -> bool>(&mut self, keep: F)
        requires
            forall|i: int|
                0 <= i < old(self)@.len() ==> #[trigger] keep.requires((&old(self)@[i],)),
        ensures
            final(self)@.len() <= old(self)@.len(),
            final(self).spec_cap() == old(self).spec_cap(),
            final(self).spec_mode() == old(self).spec_mode(),
            exists|dec: Seq<bool>|
                {
                    &&& dec.len() == old(self)@.len()
                    &&& final(self)@ == filter_by(old(self)@, dec)
                    &&& forall|i: int|
                        0 <= i < dec.len() ==> call_ensures(
                            keep,
                            (&old(self)@[i],),
                            #[trigger] dec[i],
                        )
                },
    {
        proof {
            use_type_invariant(&*self);
        }
        let mut items: Vec<T> = Vec::new();
        core::mem::swap(&mut items, &mut self.items);
        let mut kept: Vec<T> = Vec::new();
        let ghost mut dec: Seq<bool> = Seq::empty();
        proof {
            assert(items@ =~= old(self)@.subrange(0, old(self)@.len() as int));
        }
        while items.len() > 0
            invariant
                items@ == old(self)@.subrange(
                    old(self)@.len() - items@.len(),
                    old(self)@.len() as int,
                ),
                dec.len() + items@.len() == old(self)@.len(),
                kept@ == filter_by(old(self)@.take(dec.len() as int), dec),
                kept@.len() <= dec.len(),
                forall|i: int|
                    0 <= i < dec.len() ==> call_ensures(keep, (&old(self)@[i],), #[trigger] dec[i]),
                forall|i: int|
                    0 <= i < old(self)@.len() ==> #[trigger] keep.requires((&old(self)@[i],)),
            decreases items@.len(),
        {
            let ghost s0 = old(self)@;
            let ghost k = dec.len() as int;
            let ghost prev_items = items@;
            let ghost prev_dec = dec;
            let ghost prev_kept = kept@;
            let x = items.remove(0);
            assert(x == s0[k]);
            let b = keep(&x);
            proof {
                dec = dec.push(b);
            }
            if b {
                kept.push(x);
            }
            proof {
                assert(dec.drop_last() =~= prev_dec);
                assert(s0.take(k + 1).drop_last() =~= s0.take(k));
                assert(s0.take(k + 1).last() == s0[k]);
                if b {
                    assert(kept@ =~= filter_by(s0.take(k), prev_dec) + seq![s0[k]]);
                } else {
                    assert(kept@ =~= filter_by(s0.take(k), prev_dec) + Seq::<T>::empty());
                }
                assert(kept@ == filter_by(s0.take(k + 1), dec));
                assert(items@ == prev_items.remove(0));
                prev_items.remove_ensures(0);
                assert(items@ =~= s0.subrange(s0.len() - items@.len(), s0.len() as int));
            }
        }
        self.items = kept;
        proof {
            assert(old(self)@.take(old(self)@.len() as int) =~= old(self)@);
        }
    }

    /// Describe where the backing storage currently lives, for debugging.
    pub fn ptr_to_string(&self) -> (r: String)
        ensures
            self.spec_mode() == StorageMode::Compact ==> r@ == "compact"@,
            self.spec_mode() == StorageMode::Free ==> r@ == "free"@,
    {
        broadcast use vstd::string::to_string_from_display_ensures_for_str;

        match self.mode {
            StorageMode::Compact => "compact".to_string(),
            StorageMode::Free => "free".to_string(),
        }
    }
}

impl<T: Compact> CompactVec<T> {
    /// Move the vector into compact storage: the storage tag switches to
    /// compact mode and every element is compacted in turn.  Like
    /// [`Compact::compact`], with the storage bookkeeping pinned.
    pub fn compacted(self) -> (r: Self)
        ensures
            r@.len() == self@.len(),
            seq_models(r@) == seq_models(self@),
            seq_still_compact(r@),
            r.spec_mode() == StorageMode::Compact,
            r.spec_cap() == self.spec_cap(),
    {
        proof {
            use_type_invariant(&self);
        }
        let CompactVec { items, cap, mode: _ } = self;
        let ghost s0 = items@;
        let mut items = items;
        let mut rev: Vec<T> = Vec::new();
        while items.len() > 0
            invariant
                s0.len() <= cap,
                items@.len() + rev@.len() == s0.len(),
                items@ == s0.subrange(0, items@.len() as int),
                forall|k: int|
                    0 <= k < rev@.len() ==> (#[trigger] rev@[k]).model() == s0[s0.len() - 1
                        - k].model() && rev@[k].spec_still_compact(),
            decreases items@.len(),
        {
            let x = items.pop().unwrap();
            rev.push(x.compact());
            proof {
                assert(items@ =~= s0.subrange(0, items@.len() as int));
            }
        }
        let ghost r0 = rev@;
        let mut out: Vec<T> = Vec::new();
        while rev.len() > 0
            invariant
                s0.len() <= cap,
                r0.len() == s0.len(),
                rev@.len() + out@.len() == r0.len(),
                rev@ == r0.subrange(0, rev@.len() as int),
                forall|k: int|
                    0 <= k < r0.len() ==> (#[trigger] r0[k]).model() == s0[s0.len() - 1 - k].model()
                        && r0[k].spec_still_compact(),
                forall|k: int|
                    0 <= k < out@.len() ==> (#[trigger] out@[k]).model() == s0[k].model()
                        && out@[k].spec_still_compact(),
            decreases rev@.len(),
        {
            let x = rev.pop().unwrap();
            out.push(x);
            proof {
                assert(rev@ =~= r0.subrange(0, rev@.len() as int));
            }
        }
        let r = CompactVec { items: out, cap, mode: StorageMode::Compact };
        proof {
            assert(seq_models(r@) =~= seq_models(s0));
        }
        r
    }

    /// Rebuild a fully heap-owned equivalent of the vector, element by
    /// element.  Like [`Compact::decompact`], with the storage bookkeeping
    /// pinned.
    pub fn decompacted(&self) -> (r: Self)
        ensures
            r@.len() == self@.len(),
            seq_models(r@) == seq_models(self@),
            seq_all_free(r@),
            r.spec_mode() == StorageMode::Free,
            r.spec_cap() == self.spec_cap(),
    {
        proof {
            use_type_invariant(self);
        }
        let n = self.items.len();
        let mut out: Vec<T> = Vec::new();
        for i in 0..n
            invariant
                n == self.items@.len(),
                self.items@.len() <= self.spec_cap(),
                out@.len() == i,
                forall|k: int|
                    0 <= k < i ==> (#[trigger] out@[k]).model() == self.items@[k].model()
                        && out@[k].spec_all_free(),
        {
            let d = self.items[i].decompact();
            out.push(d);
        }
        let r = CompactVec { items: out, cap: self.cap, mode: StorageMode::Free };
        proof {
            assert(seq_models(r@) =~= seq_models(self@));
        }
        r
    }
}

impl<T: Compact> Compact for CompactVec<T> {
    type Model = Seq<T::Model>;

    open spec fn model(&self) -> Seq<T::Model> {
        seq_models(self@)
    }

    open spec fn spec_still_compact(&self) -> bool {
        self.spec_mode() == StorageMode::Compact && seq_still_compact(self@)
    }

    open spec fn spec_all_free(&self) -> bool {
        self.spec_mode() == StorageMode::Free && seq_all_free(self@)
    }

    open spec fn spec_tail_bytes(&self) -> nat {
        (self.spec_cap() * vstd::layout::size_of::<T>() + seq_tail_bytes(self@)) as nat
    }

    fn is_still_compact(&self) -> (b: bool) {
        match self.mode {
            StorageMode::Free => false,
            StorageMode::Compact => {
                let n = self.items.len();
                let mut i: usize = 0;
                while i < n
                    invariant
                        i <= n,
                        n == self.items@.len(),
                        forall|k: int|
                            0 <= k < i ==> (#[trigger] self.items@[k]).spec_still_compact(),
                    decreases n - i,
                {
                    if !self.items[i].is_still_compact() {
                        return false;
                    }
                    i += 1;
                }
                true
            },
        }
    }

    fn dynamic_size_bytes(&self) -> (n: usize) {
        let elem_size = core::mem::size_of::<T>();
        let mut acc: usize = self.cap * elem_size;
        let count = self.items.len();
        let ghost s = self.items@;
        let mut i: usize = 0;
        while i < count
            invariant
                i <= count,
                count == self.items@.len(),
                s == self.items@,
                elem_size as nat == vstd::layout::size_of::<T>(),
                self.spec_tail_bytes() <= usize::MAX,
                acc as nat == self.spec_cap() * vstd::layout::size_of::<T>() + seq_tail_bytes(
                    s.take(i as int),
                ),
            decreases count - i,
        {
            proof {
                lemma_seq_tail_bytes_prefix(s, i + 1);
                assert(s.take(i + 1).drop_last() =~= s.take(i as int));
                assert(s.take(i + 1).last() == s[i as int]);
            }
            let t = self.items[i].dynamic_size_bytes();
            acc = acc + t;
            i += 1;
        }
        proof {
            assert(s.take(count as int) =~= s);
        }
        acc
    }

    fn compact(self) -> (r: Self) {
        self.compacted()
    }

    fn decompact(&self) -> (r: Self) {
        self.decompacted()
    }
}

impl<T: Compact> Clone for CompactVec<T> {
    /// Clone by rebuilding every element through the relocation protocol;
    /// the copy is fully heap-owned and models the original.
    fn clone(&self) -> (r: Self)
        ensures
            r@.len() == self@.len(),
            seq_models(r@) == seq_models(self@),
            r.spec_all_free(),
            r.spec_cap() == self.spec_cap(),
    {
        self.decompacted()
    }
}

impl<T> Default for CompactVec<T> {
    /// The empty vector in its null compact state.
    fn default() -> (v: Self)
        ensures
            v@ == Seq::<T>::empty(),
            v.spec_cap() == 0,
            v.spec_mode() == StorageMode::Compact,
    {
        CompactVec::new()
    }
}

/// The subsequence of `s` selected by the decision sequence `dec`.
pub open spec fn filter_by<T>(s: Seq<T>, dec: Seq<bool>) -> Seq<T>
    recommends
        s.len() == dec.len(),
    decreases s.len(),
{
    if s.len() == 0 {
        Seq::empty()
    } else {
        filter_by(s.drop_last(), dec.drop_last()) + (if dec.last() {
            seq![s.last()]
        } else {
            Seq::empty()
        })
    }
}

/// An owning iterator over the elements drained out of a vector.
pub struct IntoIter<T> {
    items: Vec<T>,
}

impl<T> IntoIter<T> {
    /// The elements not yet handed out, in order.
    pub closed spec fn remaining(&self) -> Seq<T> {
        self.items@
    }

    /// Hand out the next element, front to back.
    pub fn next(&mut self) -> (r: Option<T>)
        ensures
            old(self).remaining().len() == 0 ==> r is None && final(self).remaining() == old(self).remaining(),
            old(self).remaining().len() > 0 ==> r == Some(old(self).remaining()[0])
                && final(self).remaining() == old(self).remaining().drop_first(),
    {
        if self.items.len() == 0 {
            None
        } else {
            let x = self.items.remove(0);
            proof {
                assert(self.items@ =~= old(self).remaining().drop_first());
            }
            Some(x)
        }
    }

    /// How many elements are left.
    pub fn remaining_len(&self) -> (n: usize)
        ensures
            n == self.remaining().len(),
    {
        self.items.len()
    }
}

} // verus!
