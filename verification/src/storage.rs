//! The dual-mode storage tag.
//!
//! A container's dynamic interior lives in exactly one of two places:
//!
//! * **Free** storage: memory the container obtained from the general heap
//!   and owns; it must be released when the container is dropped.
//! * **Compact** storage: memory embedded inside an enclosing relocation
//!   block; the block's owner frees it, the container must not.
//!
//! The design mandates this ownership contract, not a particular pointer
//! encoding.  In this crate the containers hold their interior in ordinary
//! owned collections, so the address itself carries no information and the
//! tag below is the whole state of the "dual-mode pointer"; a null pointer
//! corresponds to an enclosing container whose capacity is zero.

use vstd::prelude::*;

verus! {

/// Where a container's dynamic interior currently lives.
#[derive(Clone, Copy, PartialEq, Eq, Structural, Debug)]
pub enum StorageMode {
    /// Embedded in an enclosing relocation block; not owned.
    Compact,
    /// On the general heap; owned, freed on drop.
    Free,
}

impl StorageMode {
    /// True in compact mode: the interior must not be freed by its holder.
    pub fn is_compact(&self) -> (b: bool)
        ensures
            b == (*self == StorageMode::Compact),
    {
        match self {
            StorageMode::Compact => true,
            StorageMode::Free => false,
        }
    }

    /// True in free mode: the holder owns the interior.
    pub fn is_free(&self) -> (b: bool)
        ensures
            b == (*self == StorageMode::Free),
    {
        match self {
            StorageMode::Compact => false,
            StorageMode::Free => true,
        }
    }
}

impl Default for StorageMode {
    /// A fresh tag is a null compact pointer: nothing allocated, nothing owned.
    fn default() -> (m: Self)
        ensures
            m == StorageMode::Compact,
    {
        StorageMode::Compact
    }
}

} // verus!
