//! An append-only log of byte blocks that a reader can verify against a
//! signed Merkle root forest.
//!
//! The modules go from the leaves up: index arithmetic on the flat in-order
//! tree, the paged bitfields that record which blocks and tree nodes are
//! present, the Merkle accumulator, the storage layout, and the feed that
//! binds them.

pub mod bitfield;
pub mod bytes;
pub mod cached;
pub mod feed;
pub mod flat;
pub mod memory;
pub mod merkle;
pub mod pager;
pub mod sign;
pub mod sparse;
pub mod storage;
pub mod tree;
pub mod varint;
