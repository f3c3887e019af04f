//! Block addressing and caching for a block-structured filesystem: the
//! four-level pointer tree that maps a 32-bit id to a block on disk, the
//! overflow nodes that hold a node's extents, and a bounded write-through
//! cache of disk pages.

use vstd::prelude::*;

pub mod block;
pub mod cache;
pub mod disk;
pub mod ex_chain;
pub mod ex_disk;
pub mod extent;
pub mod layout;
pub mod lru;
pub mod ex_node;
pub mod tree;
pub mod walk;

verus! {

/// Bytes in one page, the unit of disk transfer and of caching.
pub const PAGE_SIZE: usize = 512;

/// Bytes in one table of the tree: 256 pointers of 16 bytes, eight pages.
pub const BLOCK_SIZE: u64 = 4096;

} // verus!
