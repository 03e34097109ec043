//! The relocation protocol.
//!
//! A type takes part in relocation by implementing [`Compact`]: it can say
//! how many bytes of dynamic tail it owns, whether that tail currently
//! lives inside an enclosing block, move itself into compact storage, and
//! rebuild a fully heap-owned copy of itself.  Every operation is specified
//! against the type's mathematical model, which never depends on the
//! storage mode: relocation changes where a value lives, not what it is.

use vstd::prelude::*;

verus! {

/// The relocation protocol.  `Model` is the mathematical value of the
/// container; `compact` and `decompact` preserve it while switching the
/// storage mode of the container's dynamic interior.
pub trait Compact: Sized {
    /// The mathematical value of the container, independent of storage mode.
    type Model;

    /// The value this container represents.
    spec fn model(&self) -> Self::Model;

    /// The dynamic interior lives inside an enclosing block, transitively.
    spec fn spec_still_compact(&self) -> bool;

    /// The dynamic interior is fully heap-owned, transitively.
    spec fn spec_all_free(&self) -> bool;

    /// Bytes of dynamic tail the container owns, transitively.
    spec fn spec_tail_bytes(&self) -> nat;

    /// Is the dynamic interior still embedded in its enclosing block?
    fn is_still_compact(&self) -> (b: bool)
        ensures
            b == self.spec_still_compact(),
    ;

    /// How many bytes of tail region a compaction of `self` needs.
    fn dynamic_size_bytes(&self) -> (n: usize)
        requires
            self.spec_tail_bytes() <= usize::MAX,
        ensures
            n as nat == self.spec_tail_bytes(),
    ;

    /// Move `self` into compact storage.  Ownership of the tail transfers
    /// to the enclosing block, so the argument is consumed.
    fn compact(self) -> (r: Self)
        ensures
            r.model() == self.model(),
            r.spec_still_compact(),
    ;

    /// Rebuild a fully heap-owned equivalent of `self`, suitable for
    /// arbitrary further mutation.
    fn decompact(&self) -> (r: Self)
        ensures
            r.model() == self.model(),
            r.spec_all_free(),
    ;
}

impl Compact for u8 {
    type Model = u8;

    open spec fn model(&self) -> u8 {
        *self
    }

    open spec fn spec_still_compact(&self) -> bool {
        true
    }

    open spec fn spec_all_free(&self) -> bool {
        true
    }

    open spec fn spec_tail_bytes(&self) -> nat {
        0
    }

    fn is_still_compact(&self) -> bool {
        true
    }

    fn dynamic_size_bytes(&self) -> usize {
        0
    }

    fn compact(self) -> Self {
        self
    }

    fn decompact(&self) -> Self {
        *self
    }
}

impl Compact for u32 {
    type Model = u32;

    open spec fn model(&self) -> u32 {
        *self
    }

    open spec fn spec_still_compact(&self) -> bool {
        true
    }

    open spec fn spec_all_free(&self) -> bool {
        true
    }

    open spec fn spec_tail_bytes(&self) -> nat {
        0
    }

    fn is_still_compact(&self) -> bool {
        true
    }

    fn dynamic_size_bytes(&self) -> usize {
        0
    }

    fn compact(self) -> Self {
        self
    }

    fn decompact(&self) -> Self {
        *self
    }
}

impl Compact for u64 {
    type Model = u64;

    open spec fn model(&self) -> u64 {
        *self
    }

    open spec fn spec_still_compact(&self) -> bool {
        true
    }

    open spec fn spec_all_free(&self) -> bool {
        true
    }

    open spec fn spec_tail_bytes(&self) -> nat {
        0
    }

    fn is_still_compact(&self) -> bool {
        true
    }

    fn dynamic_size_bytes(&self) -> usize {
        0
    }

    fn compact(self) -> Self {
        self
    }

    fn decompact(&self) -> Self {
        *self
    }
}

impl Compact for usize {
    type Model = usize;

    open spec fn model(&self) -> usize {
        *self
    }

    open spec fn spec_still_compact(&self) -> bool {
        true
    }

    open spec fn spec_all_free(&self) -> bool {
        true
    }

    open spec fn spec_tail_bytes(&self) -> nat {
        0
    }

    fn is_still_compact(&self) -> bool {
        true
    }

    fn dynamic_size_bytes(&self) -> usize {
        0
    }

    fn compact(self) -> Self {
        self
    }

    fn decompact(&self) -> Self {
        *self
    }
}

/// The models of a sequence of containers, element by element.
pub open spec fn seq_models<T: Compact>(s: Seq<T>) -> Seq<T::Model> {
    Seq::new(s.len(), |i: int| s[i].model())
}

/// Every element's dynamic interior is still embedded.
pub open spec fn seq_still_compact<T: Compact>(s: Seq<T>) -> bool {
    forall|i: int| 0 <= i < s.len() ==> (#[trigger] s[i]).spec_still_compact()
}

/// Every element's dynamic interior is fully heap-owned.
pub open spec fn seq_all_free<T: Compact>(s: Seq<T>) -> bool {
    forall|i: int| 0 <= i < s.len() ==> (#[trigger] s[i]).spec_all_free()
}

/// Total tail bytes of a sequence of containers.
pub open spec fn seq_tail_bytes<T: Compact>(s: Seq<T>) -> nat
    decreases s.len(),
{
    if s.len() == 0 {
        0
    } else {
        seq_tail_bytes(s.drop_last()) + s.last().spec_tail_bytes()
    }
}

/// A prefix of a sequence owns at most the whole sequence's tail bytes.
pub proof fn lemma_seq_tail_bytes_prefix<T: Compact>(s: Seq<T>, i: int)
    requires
        0 <= i <= s.len(),
    ensures
        seq_tail_bytes(s.take(i)) <= seq_tail_bytes(s),
    decreases s.len(),
{
    if s.len() == 0 {
    } else if i == s.len() {
        assert(s.take(i) =~= s);
    } else {
        assert(s.drop_last().take(i) =~= s.take(i));
        lemma_seq_tail_bytes_prefix(s.drop_last(), i);
    }
}

/// Inserting an element inserts its model.
pub proof fn lemma_seq_models_insert<T: Compact>(s: Seq<T>, i: int, v: T)
    requires
        0 <= i <= s.len(),
    ensures
        seq_models(s.insert(i, v)) == seq_models(s).insert(i, v.model()),
{
    assert(seq_models(s.insert(i, v)) =~= seq_models(s).insert(i, v.model()));
}

/// Removing an element removes its model.
pub proof fn lemma_seq_models_remove<T: Compact>(s: Seq<T>, i: int)
    requires
        0 <= i < s.len(),
    ensures
        seq_models(s.remove(i)) == seq_models(s).remove(i),
{
    assert(seq_models(s.remove(i)) =~= seq_models(s).remove(i));
}

/// A contiguous block holding one compacted container: conceptually the
/// root's fixed part followed by its dynamic tail.  In this crate's model
/// the block is represented by the root value itself, held in compact mode,
/// together with the block's size in bytes.  The root can be read in place;
/// [`CompactBlock::decompact`] lifts a fully heap-owned copy back out.
pub struct CompactBlock<T> {
    root: T,
    size_bytes: usize,
}

impl<T: Compact> CompactBlock<T> {
    /// The compacted container at the base of the block.
    pub closed spec fn spec_root(&self) -> T {
        self.root
    }

    /// The recorded total size of the block.
    pub closed spec fn spec_size_bytes(&self) -> usize {
        self.size_bytes
    }

    /// The block holds a fully compacted container.
    pub open spec fn wf(&self) -> bool {
        self.spec_root().spec_still_compact()
    }

    /// Compact `x` into a fresh block sized for its fixed part plus its
    /// dynamic tail.  Ownership of `x`'s interior transfers to the block.
    pub fn new(x: T) -> (b: Self)
        requires
            vstd::layout::size_of::<T>() + x.spec_tail_bytes() <= usize::MAX,
        ensures
            b.wf(),
            b.spec_root().model() == x.model(),
            b.spec_size_bytes() as nat == vstd::layout::size_of::<T>() + x.spec_tail_bytes(),
    {
        let fixed = core::mem::size_of::<T>();
        let tail = x.dynamic_size_bytes();
        let root = x.compact();
        CompactBlock { root, size_bytes: fixed + tail }
    }

    /// Read the compacted container in place, without decompacting.
    pub fn root(&self) -> (r: &T)
        ensures
            *r == self.spec_root(),
    {
        &self.root
    }

    /// The block's total size in bytes.
    pub fn size_bytes(&self) -> (n: usize)
        ensures
            n == self.spec_size_bytes(),
    {
        self.size_bytes
    }

    /// Rebuild a fully heap-owned equivalent of the block's container; the
    /// block itself stays usable.  Together with [`CompactBlock::new`] this
    /// is the round trip: the result models the container the block was
    /// made from.
    pub fn decompact(&self) -> (r: T)
        ensures
            r.model() == self.spec_root().model(),
            r.spec_all_free(),
    {
        self.root.decompact()
    }
}

} // verus!
