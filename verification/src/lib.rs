//! Self-contained, relocatable data structures.
//!
//! Containers in this crate keep their dynamically sized interiors either
//! on the general heap (free storage) or embedded inside an enclosing
//! contiguous block (compact storage), and move between the two through a
//! uniform relocation protocol.  The crate offers:
//!
//!   * the relocation protocol itself (the [`Compact`] trait) and blocks
//!     of compacted state ([`compact::CompactBlock`]),
//!   * the dual-mode storage tag ([`storage::StorageMode`]),
//!   * a relocatable dynamic array ([`CVec`]),
//!   * a relocatable open-addressing hash map with quadratic probing,
//!     tombstoned deletion and prime bucket counts ([`CHashMap`]).
//!
//! Every operation carries a contract over a mathematical model of its
//! container, and the contracts are machine-checked.

pub mod compact;
pub mod compact_hash_map;
pub mod compact_vec;
pub mod primes;
pub mod probe;
pub mod storage;

pub use compact::Compact;
pub use compact::CompactBlock;
pub use compact_hash_map::Key;
pub use compact_hash_map::OpenAddressingMap;
pub use compact_hash_map::OpenAddressingMap as CHashMap;
pub use compact_vec::CompactVec;
pub use compact_vec::CompactVec as CVec;
pub use compact_vec::IntoIter;
