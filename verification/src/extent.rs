//! Runs of blocks.

use vstd::prelude::*;

verus! {

/// A run of `length` blocks that starts at block `offset`. A run of length
/// 0 marks an unused slot.
#[derive(Clone, Copy, Debug, PartialEq, Eq, Structural)]
pub struct Extent {
    pub offset: u64,
    pub length: u64,
}

impl Extent {
    /// The run of `length` blocks from block `offset` on.
    pub fn new(offset: u64, length: u64) -> (r: Self)
        ensures
            r == (Extent { offset, length }),
    {
        Extent { offset, length }
    }

    /// Whether the slot that holds this run is unused.
    pub fn is_empty(&self) -> (r: bool)
        ensures
            r == (self.length == 0),
    {
        self.length == 0
    }
}

impl Default for Extent {
    /// The mark of an unused slot.
    fn default() -> (r: Self)
        ensures
            r == (Extent { offset: 0, length: 0 }),
    {
        Extent { offset: 0, length: 0 }
    }
}

} // verus!
