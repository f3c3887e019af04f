//! The tree that maps a 32-bit id to a block: four levels of tables of 256
//! pointers each, indexed by the four bytes of the id, highest byte first.

use crate::block::{BlockLevel, BlockPtr, BlockRaw, BlockTrait};
use crate::layout::{bytes_to_words, decode_word, encode_words, words_to_bytes};
use core::marker::PhantomData;
use endian_num::Le;
use vstd::prelude::*;

verus! {

/// A table of the lowest level: its pointers name leaves.
pub type Level0 = TreeList<BlockRaw>;

/// A table of level 1.
pub type Level1 = TreeList<Level0>;

/// A table of level 2.
pub type Level2 = TreeList<Level1>;

/// A tree with four levels: the table of level 3, the root of the tree.
pub type Tree = TreeList<Level2>;

/// `endian_num::Le`, a number kept in little-endian byte order. Nothing is
/// known of what is inside a value.
#[verifier::external_type_specification]
#[verifier::external_body]
#[verifier::reject_recursive_types(T)]
pub struct ExLe<T>(Le<T>);

/// The number that a little-endian 32-bit value stands for: what
/// `endian_num::Le::<u32>::to_ne` returns for it.
pub uninterp spec fn le_u32_value(x: Le<u32>) -> u32;

/// `endian_num::Le::<u32>::to_ne` returns the number that the value stands
/// for, in the byte order of the machine.
pub assume_specification[ Le::<u32>::to_ne ](x: Le<u32>) -> (r: u32)
    ensures
        r == le_u32_value(x),
;

/// `From<u32>` for `endian_num::Le<u32>` returns a little-endian value that
/// stands for `x`: the crate makes it with `from_ne`, which `to_ne` undoes.
pub assume_specification[ <Le<u32> as From<u32>>::from ](x: u32) -> (r: Le<u32>)
    ensures
        le_u32_value(r) == x,
;

/// A [`TreePtr`] and the contents of the block it names.
#[derive(Clone, Copy, Debug, Default)]
pub struct TreeData<T> {
    id: u32,
    data: T,
}

impl<T> TreeData<T> {
    /// The id of the pointer.
    pub closed spec fn spec_id(&self) -> u32 {
        self.id
    }

    /// The contents of the block.
    pub closed spec fn spec_data(&self) -> T {
        self.data
    }

    /// The contents `data` of the block that the pointer with id `id` names.
    pub fn new(id: u32, data: T) -> (r: Self)
        ensures
            r.spec_id() == id,
            r.spec_data() == data,
    {
        Self { id, data }
    }

    /// The id of the pointer.
    pub fn id(&self) -> (r: u32)
        ensures
            r == self.spec_id(),
    {
        self.id
    }

    /// The contents of the block.
    pub fn data(&self) -> (r: &T)
        ensures
            *r == self.spec_data(),
    {
        &self.data
    }

    /// The contents of the block, to be changed in place.
    pub fn data_mut(&mut self) -> (r: &mut T)
        ensures
            *r == old(self).spec_data(),
            final(self).spec_data() == *final(r),
            final(self).spec_id() == old(self).spec_id(),
    {
        &mut self.data
    }

    /// The contents of the block alone.
    pub fn into_data(self) -> (r: T)
        ensures
            r == self.spec_data(),
    {
        self.data
    }

    /// The pointer whose block this is.
    pub fn ptr(&self) -> (r: TreePtr<T>)
        ensures
            r.spec_id() == self.spec_id(),
    {
        TreePtr { id: self.id.into(), phantom: PhantomData }
    }
}

/// The words of a table: address and checksum of each pointer in turn.
pub open spec fn list_words<T>(ptrs: Seq<BlockPtr<T>>) -> Seq<u64> {
    Seq::new(
        2 * ptrs.len(),
        |k: int|
            if k % 2 == 0 {
                ptrs[k / 2].spec_addr()
            } else {
                ptrs[k / 2].spec_hash()
            },
    )
}

/// One level of a [`Tree`]: 256 pointers to blocks of kind `T`.
pub struct TreeList<T> {
    pub ptrs: [BlockPtr<T>; 256],
}

impl<T> BlockTrait for TreeList<T> {
    /// A table of null pointers at level 0, `None` at any other level.
    fn empty(level: BlockLevel) -> (r: Option<Self>)
        ensures
            r matches Some(list) ==> forall|i: int|
                0 <= i < 256 ==> (#[trigger] list.ptrs[i])@ == (0u64, 0u64),
    {
        if level.0 == 0 {
            Some(Self::new())
        } else {
            None
        }
    }
}

/// The words of a table of null pointers.
pub open spec fn blank_words() -> Seq<u64> {
    Seq::new(512, |k: int| 0u64)
}

/// The words of a table after `ptr`, given as its address and checksum,
/// was put into entry `index`.
pub open spec fn set_entry(words: Seq<u64>, index: int, ptr: (u64, u64)) -> Seq<u64> {
    words.update(2 * index, ptr.0).update(2 * index + 1, ptr.1)
}

impl<T> TreeList<T> {
    /// The table in words.
    pub open spec fn spec_words(&self) -> Seq<u64> {
        list_words(self.ptrs@)
    }

    /// A table of null pointers.
    pub fn new() -> (r: Self)
        ensures
            forall|i: int| 0 <= i < 256 ==> (#[trigger] r.ptrs[i])@ == (0u64, 0u64),
            r.spec_words() == blank_words(),
    {
        let r = Self { ptrs: [BlockPtr::default();256] };
        assert(r.spec_words() =~= blank_words());
        r
    }

    /// Puts `ptr` into entry `index`.
    pub fn set(&mut self, index: usize, ptr: BlockPtr<T>)
        requires
            index < 256,
        ensures
            final(self).ptrs@ == old(self).ptrs@.update(index as int, ptr),
            final(self).spec_words() == set_entry(old(self).spec_words(), index as int, ptr@),
    {
        self.ptrs[index] = ptr;
        assert(self.spec_words() =~= set_entry(old(self).spec_words(), index as int, ptr@));
    }

    /// The table as bytes on disk.
    pub open spec fn spec_bytes(&self) -> Seq<u8> {
        words_to_bytes(list_words(self.ptrs@))
    }

    /// The table in words.
    fn to_words(&self) -> (words: Vec<u64>)
        ensures
            words@ == list_words(self.ptrs@),
    {
        let mut words: Vec<u64> = Vec::new();
        let mut i: usize = 0;
        while i < 256
            invariant
                i <= 256,
                words@ == list_words(self.ptrs@.subrange(0, i as int)),
            decreases 256 - i,
        {
            let ptr = self.ptrs[i];
            proof {
                let before = self.ptrs@.subrange(0, i as int);
                let after = self.ptrs@.subrange(0, i + 1);
                assert(words@.push(ptr.spec_addr()).push(ptr.spec_hash()) =~= list_words(after)) by {
                    assert forall|k: int| 0 <= k < 2 * (i + 1) implies words@.push(
                        ptr.spec_addr(),
                    ).push(ptr.spec_hash())[k] == #[trigger] list_words(after)[k] by {
                        if k < 2 * i {
                            assert(before[k / 2] == after[k / 2]);
                        }
                    }
                }
            }
            words.push(ptr.addr());
            words.push(ptr.hash());
            i += 1;
        }
        proof {
            assert(self.ptrs@.subrange(0, 256) =~= self.ptrs@);
        }
        words
    }

    /// The table as the 4096 bytes that stand for it on disk.
    pub fn to_bytes(&self) -> (bytes: Vec<u8>)
        ensures
            bytes@ == self.spec_bytes(),
            bytes@.len() == 4096,
    {
        let words = self.to_words();
        encode_words(words.as_slice())
    }

    /// The table that `bytes` stand for, or `None` unless there are exactly
    /// 4096 of them.
    pub fn from_bytes(bytes: &[u8]) -> (r: Option<Self>)
        ensures
            r.is_some() == (bytes@.len() == 4096),
            r matches Some(list) ==> list.spec_bytes() == bytes@,
    {
        if bytes.len() != 4096 {
            return None;
        }
        let mut list = Self { ptrs: [BlockPtr::default();256] };
        let mut i: usize = 0;
        while i < 256
            invariant
                i <= 256,
                bytes@.len() == 4096,
                forall|j: int|
                    0 <= j < i ==> (#[trigger] list.ptrs[j])@ == (
                        bytes_to_words(bytes@)[2 * j],
                        bytes_to_words(bytes@)[2 * j + 1],
                    ),
            decreases 256 - i,
        {
            let ptr = BlockPtr::new(decode_word(bytes, 2 * i), decode_word(bytes, 2 * i + 1));
            list.ptrs[i] = ptr;
            i += 1;
        }
        proof {
            let words = list_words(list.ptrs@);
            assert(words =~= bytes_to_words(bytes@)) by {
                assert forall|k: int| 0 <= k < 512 implies words[k] == #[trigger] bytes_to_words(
                    bytes@,
                )[k] by {
                    let j = k / 2;
                    assert(list.ptrs[j]@.0 == bytes_to_words(bytes@)[2 * j]);
                }
            }
            crate::layout::bytes_round_trip(bytes@);
        }
        Some(list)
    }
}

/// Decoding the bytes of a table gives the addresses and checksums of its
/// pointers back.
pub proof fn list_bytes_round_trip<T>(list: TreeList<T>)
    ensures
        list.spec_bytes().len() == 4096,
        bytes_to_words(list.spec_bytes()) == list_words(list.ptrs@),
{
    crate::layout::words_round_trip(list_words(list.ptrs@));
}

/// Whether each of the four indices names an entry of a table.
pub open spec fn valid_indexes(indexes: (usize, usize, usize, usize)) -> bool {
    indexes.0 < 256 && indexes.1 < 256 && indexes.2 < 256 && indexes.3 < 256
}

/// The indices `(i3, i2, i1, i0)` of an id: its four bytes, highest first.
pub open spec fn spec_indexes(id: u32) -> (usize, usize, usize, usize) {
    (
        (id / 0x100_0000) as usize,
        (id / 0x1_0000 % 0x100) as usize,
        (id / 0x100 % 0x100) as usize,
        (id % 0x100) as usize,
    )
}

/// The id made of the indices `(i3, i2, i1, i0)`: each index is moved to
/// the place of its byte, cut to 32 bits, and the four are joined bit by
/// bit. For valid indices this is `i3 * 2^24 + i2 * 2^16 + i1 * 2^8 + i0`.
pub open spec fn spec_from_indexes(indexes: (usize, usize, usize, usize)) -> u32 {
    ((indexes.0 << 24) as u32) | ((indexes.1 << 16) as u32) | ((indexes.2 << 8) as u32) | (
    indexes.3 as u32)
}

/// The id of valid indices, by arithmetic.
pub proof fn from_indexes_is_sum(indexes: (usize, usize, usize, usize))
    requires
        valid_indexes(indexes),
    ensures
        spec_from_indexes(indexes) == indexes.0 * 0x100_0000 + indexes.1 * 0x1_0000 + indexes.2
            * 0x100 + indexes.3,
{
    let (i3, i2, i1, i0) = indexes;
    assert(i3 < 256 && i2 < 256 && i1 < 256 && i0 < 256 ==> ((i3 << 24) as u32) | ((i2 << 16) as u32)
        | ((i1 << 8) as u32) | (i0 as u32) == i3 * 0x100_0000 + i2 * 0x1_0000 + i1 * 0x100 + i0)
        by (bit_vector);
}

/// The indices of an id name entries of a table and make up the same id.
pub proof fn id_round_trip(id: u32)
    ensures
        valid_indexes(spec_indexes(id)),
        spec_from_indexes(spec_indexes(id)) == id,
{
    let (i3, i2, i1, i0) = spec_indexes(id);
    assert(id / 0x100_0000 < 256) by (bit_vector);
    from_indexes_is_sum((i3, i2, i1, i0));
}

/// The id made of valid indices has those indices.
pub proof fn indexes_round_trip(indexes: (usize, usize, usize, usize))
    requires
        valid_indexes(indexes),
    ensures
        spec_indexes(spec_from_indexes(indexes)) == indexes,
{
    from_indexes_is_sum(indexes);
    let (i3, i2, i1, i0) = (indexes.0 as int, indexes.1 as int, indexes.2 as int, indexes.3 as int);
    let id = spec_from_indexes(indexes) as int;
    assert(id == (((i3 * 256) + i2) * 256 + i1) * 256 + i0);
    assert(id % 256 == i0 && id / 256 == (i3 * 256 + i2) * 256 + i1);
    assert((id / 256) % 256 == i1 && id / 256 / 256 == i3 * 256 + i2);
    assert(id / 0x1_0000 == id / 256 / 256 && id / 0x100_0000 == id / 256 / 256 / 256);
    assert((i3 * 256 + i2) % 256 == i2 && (i3 * 256 + i2) / 256 == i3);
}

/// A pointer to an entry in a [`Tree`]: a 32-bit id. Id 0 is the null
/// pointer and id 1 names the root node of the filesystem.
pub struct TreePtr<T> {
    id: Le<u32>,
    phantom: PhantomData<T>,
}

impl<T> TreePtr<T> {
    /// The id of the pointer.
    pub closed spec fn spec_id(&self) -> u32 {
        le_u32_value(self.id)
    }

    /// A pointer to the root node of the filesystem.
    pub fn root() -> (r: Self)
        ensures
            r.spec_id() == 1,
    {
        Self::new(1)
    }

    /// The pointer with id `id`.
    pub fn new(id: u32) -> (r: Self)
        ensures
            r.spec_id() == id,
    {
        Self { id: id.into(), phantom: PhantomData }
    }

    /// The pointer whose indices are `indexes`, that is `(i3, i2, i1, i0)`:
    /// `i3` is the index into the table of level 3, `i2` the index into the
    /// table of level 2 found there, and so on.
    pub fn from_indexes(indexes: (usize, usize, usize, usize)) -> (r: Self)
        ensures
            r.spec_id() == spec_from_indexes(indexes),
            valid_indexes(indexes) ==> r.spec_id() == indexes.0 * 0x100_0000 + indexes.1 * 0x1_0000
                + indexes.2 * 0x100 + indexes.3,
            valid_indexes(indexes) ==> spec_indexes(r.spec_id()) == indexes,
    {
        let i3: u32 = #[verifier::truncate] ((indexes.0 << 24usize) as u32);
        let i2: u32 = #[verifier::truncate] ((indexes.1 << 16usize) as u32);
        let i1: u32 = #[verifier::truncate] ((indexes.2 << 8usize) as u32);
        let i0: u32 = #[verifier::truncate] (indexes.3 as u32);
        let id: u32 = i3 | i2 | i1 | i0;
        proof {
            if valid_indexes(indexes) {
                from_indexes_is_sum(indexes);
                indexes_round_trip(indexes);
            }
        }
        Self { id: id.into(), phantom: PhantomData }
    }

    /// The id of the pointer.
    pub fn id(&self) -> (r: u32)
        ensures
            r == self.spec_id(),
    {
        self.id.to_ne()
    }

    /// Whether this is the null pointer, the one with id 0.
    pub fn is_null(&self) -> (r: bool)
        ensures
            r == (self.spec_id() == 0),
    {
        self.id() == 0
    }

    /// The indices `(i3, i2, i1, i0)` of the pointer: `i3` is the index
    /// into the table of level 3, `i2` the index into the table of level 2
    /// found there, and so on.
    pub fn indexes(&self) -> (r: (usize, usize, usize, usize))
        ensures
            r == spec_indexes(self.spec_id()),
            valid_indexes(r),
            spec_from_indexes(r) == self.spec_id(),
    {
        let id = self.id();
        let i3 = ((id >> 24u32) & 0xff) as usize;
        let i2 = ((id >> 16u32) & 0xff) as usize;
        let i1 = ((id >> 8u32) & 0xff) as usize;
        let i0 = (id & 0xff) as usize;
        proof {
            assert((id >> 24u32) & 0xff == id / 0x100_0000) by (bit_vector);
            assert((id >> 16u32) & 0xff == id / 0x1_0000 % 0x100) by (bit_vector);
            assert((id >> 8u32) & 0xff == id / 0x100 % 0x100) by (bit_vector);
            assert(id & 0xff == id % 0x100) by (bit_vector);
            id_round_trip(id);
        }
        (i3, i2, i1, i0)
    }
}

impl<T> Clone for TreePtr<T> {
    /// The same pointer.
    fn clone(&self) -> (r: Self)
        ensures
            r == *self,
    {
        *self
    }
}

impl<T> Copy for TreePtr<T> {}

impl<T> Default for TreePtr<T> {
    /// The null pointer.
    fn default() -> (r: Self)
        ensures
            r.spec_id() == 0,
    {
        Self { id: 0u32.into(), phantom: PhantomData }
    }
}

} // verus!
