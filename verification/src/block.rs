//! Pointers to blocks on disk and the kinds of block they can name.

use core::marker::PhantomData;
use vstd::prelude::*;

verus! {

/// The level at which a block is created. Tables and raw pages exist at
/// level 0 only.
#[derive(Clone, Copy, Debug, Default)]
pub struct BlockLevel(pub usize);

/// A block that can be created empty.
pub trait BlockTrait: Sized {
    /// Whether an empty block of this kind exists at `level`.
    open spec fn empty_at(level: BlockLevel) -> bool {
        level.0 == 0
    }

    /// An empty block for `level`, or `None` where this kind of block does
    /// not exist at that level.
    fn empty(level: BlockLevel) -> (r: Option<Self>)
        ensures
            r.is_some() == Self::empty_at(level),
    ;
}

/// The address of a block on disk and the checksum of what the block
/// holds. Address 0 is the null pointer.
pub struct BlockPtr<T> {
    addr: u64,
    hash: u64,
    phantom: PhantomData<T>,
}

impl<T> BlockPtr<T> {
    /// The address of the block, 0 for the null pointer.
    pub closed spec fn spec_addr(&self) -> u64 {
        self.addr
    }

    /// The checksum that the pointer records for the block.
    pub closed spec fn spec_hash(&self) -> u64 {
        self.hash
    }

    /// The pointer as the pair of its address and its checksum.
    pub open spec fn view(&self) -> (u64, u64) {
        (self.spec_addr(), self.spec_hash())
    }

    /// Whether this is the null pointer, the one with address 0.
    pub open spec fn spec_is_null(&self) -> bool {
        self.spec_addr() == 0
    }

    /// The pointer to the block at `addr` that records the checksum `hash`.
    pub fn new(addr: u64, hash: u64) -> (r: Self)
        ensures
            r@ == (addr, hash),
    {
        Self { addr, hash, phantom: PhantomData }
    }

    /// The address of the block, 0 for the null pointer.
    pub fn addr(&self) -> (r: u64)
        ensures
            r == self.spec_addr(),
    {
        self.addr
    }

    /// The checksum that the pointer records for the block.
    pub fn hash(&self) -> (r: u64)
        ensures
            r == self.spec_hash(),
    {
        self.hash
    }

    /// Whether this is the null pointer, the one with address 0.
    pub fn is_null(&self) -> (r: bool)
        ensures
            r == self.spec_is_null(),
    {
        self.addr == 0
    }
}

impl<T> Clone for BlockPtr<T> {
    /// The same pointer.
    fn clone(&self) -> (r: Self)
        ensures
            r == *self,
    {
        *self
    }
}

impl<T> Copy for BlockPtr<T> {}

impl<T> Default for BlockPtr<T> {
    /// The null pointer.
    fn default() -> (r: Self)
        ensures
            r@ == (0u64, 0u64),
    {
        Self { addr: 0, hash: 0, phantom: PhantomData }
    }
}

/// One raw page: the leaf that the tree's lowest table points to.
#[derive(Clone, Copy)]
pub struct BlockRaw(pub [u8; 512]);

impl BlockTrait for BlockRaw {
    /// A page of zeros at level 0, `None` at any other level.
    fn empty(level: BlockLevel) -> (r: Option<Self>)
        ensures
            r matches Some(b) ==> b.0@ == Seq::new(512, |i: int| 0u8),
    {
        if level.0 == 0 {
            let page = [0u8; 512];
            assert(page@ =~= Seq::new(512, |i: int| 0u8));
            Some(BlockRaw(page))
        } else {
            None
        }
    }
}

} // verus!
