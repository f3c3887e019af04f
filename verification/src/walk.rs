//! The tree on a disk: reading and writing its tables and leaves, finding
//! the leaf of an id, and putting a leaf under an id.
//!
//! Every pointer carries the checksum of the block that it names, so a
//! change to a block changes the pointer to it, and with that the table
//! that holds the pointer, up to the root.

use crate::block::{BlockPtr, BlockRaw};
use crate::disk::{in_range, zeros, Disk};
use crate::layout::words_to_bytes;
use crate::tree::{
    blank_words, set_entry, spec_indexes, Level0, Level1, Level2, Tree, TreeData, TreeList, TreePtr,
};
use syscall::error::Error;
use vstd::prelude::*;

verus! {

/// Why a walk of the tree failed.
#[derive(Debug)]
pub enum TreeError {
    /// The disk failed; this is its error as it came.
    Disk(Error),
    /// There is no such block: the id or a pointer on the way to it is null.
    NotFound,
    /// A block does not have the checksum that the pointer to it records.
    Checksum,
    /// A block cannot stand where it is said to: its pages have no block
    /// numbers.
    Layout,
    /// A table was needed and no block was given for it.
    NoSpace,
}

/// The checksum of a block: the 64-bit FNV-1a hash of its bytes.
pub open spec fn spec_checksum(bytes: Seq<u8>) -> u64
    decreases bytes.len(),
{
    if bytes.len() == 0 {
        0xcbf2_9ce4_8422_2325
    } else {
        (spec_checksum(bytes.drop_last()) ^ (bytes.last() as u64)).wrapping_mul(0x100_0000_01b3)
    }
}

/// The checksum of a block.
pub fn checksum(bytes: &[u8]) -> (sum: u64)
    ensures
        sum == spec_checksum(bytes@),
{
    let mut sum: u64 = 0xcbf2_9ce4_8422_2325;
    let mut i: usize = 0;
    while i < bytes.len()
        invariant
            i <= bytes@.len(),
            sum == spec_checksum(bytes@.subrange(0, i as int)),
        decreases bytes@.len() - i,
    {
        proof {
            assert(bytes@.subrange(0, i + 1).drop_last() =~= bytes@.subrange(0, i as int));
        }
        sum = (sum ^ (bytes[i] as u64)).wrapping_mul(0x100_0000_01b3);
        i += 1;
    }
    proof {
        assert(bytes@.subrange(0, i as int) =~= bytes@);
    }
    sum
}

/// Whether a block of `len` bytes can stand at `addr`: the address is not
/// null and each of its pages has a block number.
pub open spec fn can_stand(addr: u64, len: nat) -> bool {
    addr != 0 && in_range(addr, len)
}

/// Whether `res` is what opening the table behind `ptr` gives where the
/// block holds `bytes`: the table that the bytes stand for, or an error
/// where the bytes do not have the checksum of the pointer.
pub open spec fn opened_list<T>(
    ptr: BlockPtr<TreeList<T>>,
    bytes: Seq<u8>,
    res: Result<TreeList<T>, TreeError>,
) -> bool {
    if bytes.len() != 4096 {
        res == Err::<TreeList<T>, TreeError>(TreeError::Layout)
    } else if spec_checksum(bytes) != ptr.spec_hash() {
        res == Err::<TreeList<T>, TreeError>(TreeError::Checksum)
    } else {
        res matches Ok(list) && list.spec_bytes() == bytes
    }
}

/// The table behind `ptr`, given the bytes of its block.
pub fn open_list<T>(ptr: BlockPtr<TreeList<T>>, bytes: &[u8]) -> (res: Result<
    TreeList<T>,
    TreeError,
>)
    ensures
        opened_list(ptr, bytes@, res),
{
    if bytes.len() != 4096 {
        return Err(TreeError::Layout);
    }
    if checksum(bytes) != ptr.hash() {
        return Err(TreeError::Checksum);
    }
    match TreeList::from_bytes(bytes) {
        Some(list) => Ok(list),
        None => Err(TreeError::Layout),
    }
}

/// Whether `res` is what opening the leaf behind `ptr` gives where the
/// block holds `bytes`.
pub open spec fn opened_raw(ptr: BlockPtr<BlockRaw>, bytes: Seq<u8>, res: Result<BlockRaw, TreeError>) -> bool {
    if bytes.len() != 512 {
        res == Err::<BlockRaw, TreeError>(TreeError::Layout)
    } else if spec_checksum(bytes) != ptr.spec_hash() {
        res == Err::<BlockRaw, TreeError>(TreeError::Checksum)
    } else {
        res matches Ok(raw) && raw.0@ == bytes
    }
}

/// The leaf behind `ptr`, given the bytes of its block.
pub fn open_raw(ptr: BlockPtr<BlockRaw>, bytes: &[u8]) -> (res: Result<BlockRaw, TreeError>)
    ensures
        opened_raw(ptr, bytes@, res),
{
    if bytes.len() != 512 {
        return Err(TreeError::Layout);
    }
    if checksum(bytes) != ptr.hash() {
        return Err(TreeError::Checksum);
    }
    let mut page = [0u8;512];
    let mut i: usize = 0;
    while i < 512
        invariant
            i <= 512,
            bytes@.len() == 512,
            forall|j: int| 0 <= j < i ==> page@[j] == bytes@[j],
        decreases 512 - i,
    {
        page[i] = bytes[i];
        i += 1;
    }
    assert(page@ =~= bytes@);
    Ok(BlockRaw(page))
}

/// The entry `index` of a table as the walk sees it: a null pointer means
/// that there is nothing below.
pub open spec fn spec_child<T>(list: TreeList<T>, index: int) -> Result<BlockPtr<T>, TreeError> {
    if list.ptrs[index].spec_is_null() {
        Err(TreeError::NotFound)
    } else {
        Ok(list.ptrs[index])
    }
}

/// The pointer in entry `index` of `list`, or `NotFound` where it is null.
pub fn child<T>(list: &TreeList<T>, index: usize) -> (res: Result<BlockPtr<T>, TreeError>)
    requires
        index < 256,
    ensures
        res == spec_child(*list, index as int),
{
    let ptr = list.ptrs[index];
    if ptr.is_null() {
        Err(TreeError::NotFound)
    } else {
        Ok(ptr)
    }
}

/// Whether reading the block behind a pointer with address `addr` that
/// should hold `len` bytes may take the disk from `pre` to `post` and give
/// `bytes`: a null pointer and one whose block cannot stand there give an
/// error and leave the disk alone; else the disk is asked once, with a
/// buffer of `len` zeros, and its error is handed on.
pub open spec fn block_read<D: Disk>(
    pre: D,
    post: D,
    addr: u64,
    len: nat,
    res: Result<Seq<u8>, TreeError>,
) -> bool {
    if addr == 0 {
        post == pre && res == Err::<Seq<u8>, TreeError>(TreeError::NotFound)
    } else if !in_range(addr, len) {
        post == pre && res == Err::<Seq<u8>, TreeError>(TreeError::Layout)
    } else {
        exists|bytes: Seq<u8>, got: Result<usize, Error>| #[trigger]
            D::read_spec(&pre, &post, addr, zeros(len), bytes, got) && bytes.len()
                == len && res == match got {
                Ok(_) => Ok::<Seq<u8>, TreeError>(bytes),
                Err(e) => Err::<Seq<u8>, TreeError>(TreeError::Disk(e)),
            }
    }
}

/// Reads the `buffer.len()` bytes of the block at `addr`.
fn read_block<D: Disk>(disk: &mut D, addr: u64, buffer: &mut [u8]) -> (res: Result<
    (),
    TreeError,
>)
    requires
        old(disk).inv(),
        old(buffer)@ == zeros(old(buffer)@.len()),
    ensures
        final(disk).inv(),
        final(buffer)@.len() == old(buffer)@.len(),
        block_read(
            *old(disk),
            *final(disk),
            addr,
            old(buffer)@.len(),
            match res {
                Ok(_) => Ok::<Seq<u8>, TreeError>(final(buffer)@),
                Err(e) => Err::<Seq<u8>, TreeError>(e),
            },
        ),
{
    let len = buffer.len();
    if addr == 0 {
        return Err(TreeError::NotFound);
    }
    if !fits(addr, len) {
        return Err(TreeError::Layout);
    }
    match disk.read_at(addr, buffer) {
        Ok(m) => {
            assert(D::read_spec(
                &*old(disk),
                &*disk,
                addr,
                zeros(len as nat),
                buffer@,
                Ok::<usize, Error>(m),
            ));
            Ok(())
        },
        Err(e) => {
            assert(D::read_spec(
                &*old(disk),
                &*disk,
                addr,
                zeros(len as nat),
                buffer@,
                Err::<usize, Error>(e),
            ));
            Err(TreeError::Disk(e))
        },
    }
}

/// Whether each page of a block of `len` bytes at `addr` has a block
/// number.
pub fn fits(addr: u64, len: usize) -> (r: bool)
    ensures
        r == in_range(addr, len as nat),
{
    let pages = crate::disk::page_total(len);
    pages == 0 || (pages - 1) as u64 <= u64::MAX - addr
}

/// Whether writing `bytes` as the block at `addr` may take the disk from
/// `pre` to `post` and give `res`: where the block cannot stand there the
/// disk is left alone; else the disk is asked once and its error is handed
/// on.
pub open spec fn block_write<D: Disk>(
    pre: D,
    post: D,
    addr: u64,
    bytes: Seq<u8>,
    res: Result<(), TreeError>,
) -> bool {
    if !can_stand(addr, bytes.len()) {
        post == pre && res == Err::<(), TreeError>(TreeError::Layout)
    } else {
        exists|got: Result<usize, Error>| #[trigger]
            D::write_spec(&pre, &post, addr, bytes, got) && res == match got {
                Ok(_) => Ok::<(), TreeError>(()),
                Err(e) => Err::<(), TreeError>(TreeError::Disk(e)),
            }
    }
}

/// Writes `bytes` as the block at `addr`.
pub fn write_block<D: Disk>(disk: &mut D, addr: u64, bytes: &[u8]) -> (res: Result<(), TreeError>)
    requires
        old(disk).inv(),
    ensures
        final(disk).inv(),
        block_write(*old(disk), *final(disk), addr, bytes@, res),
{
    if addr == 0 || !fits(addr, bytes.len()) {
        return Err(TreeError::Layout);
    }
    match disk.write_at(addr, bytes) {
        Ok(m) => {
            assert(D::write_spec(&*old(disk), &*disk, addr, bytes@, Ok::<usize, Error>(m)));
            Ok(())
        },
        Err(e) => {
            assert(D::write_spec(&*old(disk), &*disk, addr, bytes@, Err::<usize, Error>(e)));
            Err(TreeError::Disk(e))
        },
    }
}

/// Whether reading the table behind `ptr` may take the disk from `pre` to
/// `post` and give `res`.
pub open spec fn list_read<D: Disk, T>(
    pre: D,
    post: D,
    ptr: BlockPtr<TreeList<T>>,
    res: Result<TreeList<T>, TreeError>,
) -> bool {
    exists|read: Result<Seq<u8>, TreeError>| #[trigger]
        block_read(pre, post, ptr.spec_addr(), 4096, read) && match read {
            Ok(bytes) => opened_list(ptr, bytes, res),
            Err(e) => res == Err::<TreeList<T>, TreeError>(e),
        }
}

/// Reads the table behind `ptr` and checks it against the checksum of the
/// pointer.
pub fn read_list<D: Disk, T>(disk: &mut D, ptr: BlockPtr<TreeList<T>>) -> (res: Result<
    TreeList<T>,
    TreeError,
>)
    requires
        old(disk).inv(),
    ensures
        final(disk).inv(),
        list_read(*old(disk), *final(disk), ptr, res),
{
    let mut buffer = [0u8;4096];
    assert(buffer@ =~= zeros(4096));
    match read_block(disk, ptr.addr(), &mut buffer) {
        Ok(_) => {
            assert(block_read(
                *old(disk),
                *disk,
                ptr.spec_addr(),
                4096,
                Ok::<Seq<u8>, TreeError>(buffer@),
            ));
            open_list(ptr, &buffer)
        },
        Err(e) => {
            assert(block_read(*old(disk), *disk, ptr.spec_addr(), 4096, Err::<Seq<u8>, TreeError>(e)));
            Err(e)
        },
    }
}

/// Whether writing `list` as the table at `addr` may take the disk from
/// `pre` to `post` and give `res`: after the write, the pointer to the
/// table with the checksum of its bytes.
pub open spec fn list_written<D: Disk, T>(
    pre: D,
    post: D,
    addr: u64,
    list: TreeList<T>,
    res: Result<BlockPtr<TreeList<T>>, TreeError>,
) -> bool {
    exists|wrote: Result<(), TreeError>| #[trigger]
        block_write(pre, post, addr, list.spec_bytes(), wrote) && match wrote {
            Ok(_) => res matches Ok(ptr) && ptr@ == (addr, spec_checksum(list.spec_bytes())),
            Err(e) => res == Err::<BlockPtr<TreeList<T>>, TreeError>(e),
        }
}

/// Writes `list` as the table at `addr` and returns the pointer to it.
pub fn write_list<D: Disk, T>(disk: &mut D, addr: u64, list: &TreeList<T>) -> (res: Result<
    BlockPtr<TreeList<T>>,
    TreeError,
>)
    requires
        old(disk).inv(),
    ensures
        final(disk).inv(),
        list_written(*old(disk), *final(disk), addr, *list, res),
{
    let bytes = list.to_bytes();
    let wrote = write_block(disk, addr, bytes.as_slice());
    assert(block_write(*old(disk), *disk, addr, list.spec_bytes(), wrote));
    match wrote {
        Ok(_) => Ok(BlockPtr::new(addr, checksum(bytes.as_slice()))),
        Err(e) => Err(e),
    }
}

/// Whether reading the leaf behind `ptr` may take the disk from `pre` to
/// `post` and give `res`.
pub open spec fn raw_read<D: Disk>(
    pre: D,
    post: D,
    ptr: BlockPtr<BlockRaw>,
    res: Result<BlockRaw, TreeError>,
) -> bool {
    exists|read: Result<Seq<u8>, TreeError>| #[trigger]
        block_read(pre, post, ptr.spec_addr(), 512, read) && match read {
            Ok(bytes) => opened_raw(ptr, bytes, res),
            Err(e) => res == Err::<BlockRaw, TreeError>(e),
        }
}

/// Reads the leaf behind `ptr` and checks it against the checksum of the
/// pointer.
pub fn read_raw<D: Disk>(disk: &mut D, ptr: BlockPtr<BlockRaw>) -> (res: Result<
    BlockRaw,
    TreeError,
>)
    requires
        old(disk).inv(),
    ensures
        final(disk).inv(),
        raw_read(*old(disk), *final(disk), ptr, res),
{
    let mut buffer = [0u8;512];
    assert(buffer@ =~= zeros(512));
    match read_block(disk, ptr.addr(), &mut buffer) {
        Ok(_) => {
            assert(block_read(
                *old(disk),
                *disk,
                ptr.spec_addr(),
                512,
                Ok::<Seq<u8>, TreeError>(buffer@),
            ));
            open_raw(ptr, &buffer)
        },
        Err(e) => {
            assert(block_read(*old(disk), *disk, ptr.spec_addr(), 512, Err::<Seq<u8>, TreeError>(e)));
            Err(e)
        },
    }
}

/// Whether writing `raw` as the leaf at `addr` may take the disk from `pre`
/// to `post` and give `res`: after the write, the pointer to the leaf with
/// the checksum of its bytes.
pub open spec fn raw_written<D: Disk>(
    pre: D,
    post: D,
    addr: u64,
    raw: BlockRaw,
    res: Result<BlockPtr<BlockRaw>, TreeError>,
) -> bool {
    exists|wrote: Result<(), TreeError>| #[trigger]
        block_write(pre, post, addr, raw.0@, wrote) && match wrote {
            Ok(_) => res matches Ok(ptr) && ptr@ == (addr, spec_checksum(raw.0@)),
            Err(e) => res == Err::<BlockPtr<BlockRaw>, TreeError>(e),
        }
}

/// Writes `raw` as the leaf at `addr` and returns the pointer to it.
pub fn write_raw<D: Disk>(disk: &mut D, addr: u64, raw: &BlockRaw) -> (res: Result<
    BlockPtr<BlockRaw>,
    TreeError,
>)
    requires
        old(disk).inv(),
    ensures
        final(disk).inv(),
        raw_written(*old(disk), *final(disk), addr, *raw, res),
{
    let wrote = write_block(disk, addr, &raw.0);
    assert(block_write(*old(disk), *disk, addr, raw.0@, wrote));
    match wrote {
        Ok(_) => Ok(BlockPtr::new(addr, checksum(&raw.0))),
        Err(e) => Err(e),
    }
}

/// The tables on the way from the root of a tree to the leaf of an id, as
/// far as they exist: where a pointer on the way is null, the tables below
/// it are missing.
pub struct TreePath {
    id: u32,
    root: BlockPtr<Tree>,
    l3: Tree,
    l2: Option<Level2>,
    l1: Option<Level1>,
    l0: Option<Level0>,
}

impl TreePath {
    #[verifier::type_invariant]
    spec fn inv(self) -> bool {
        self.wf()
    }

    /// The path that leads to `id` in the tree behind `root`, with the root
    /// `l3` and below it the tables `l2`, `l1` and `l0`, as far as they
    /// exist.
    pub closed spec fn of(
        id: u32,
        root: BlockPtr<Tree>,
        l3: Tree,
        l2: Option<Level2>,
        l1: Option<Level1>,
        l0: Option<Level0>,
    ) -> TreePath {
        TreePath { id, root, l3, l2, l1, l0 }
    }

    /// The id that the path leads to.
    pub closed spec fn spec_id(&self) -> u32 {
        self.id
    }

    /// The pointer to the root of the tree.
    pub closed spec fn spec_root(&self) -> BlockPtr<Tree> {
        self.root
    }

    /// The root of the tree, the table of level 3.
    pub closed spec fn spec_l3(&self) -> Tree {
        self.l3
    }

    /// The table of level 2 on the way.
    pub closed spec fn spec_l2(&self) -> Option<Level2> {
        self.l2
    }

    /// The table of level 1 on the way.
    pub closed spec fn spec_l1(&self) -> Option<Level1> {
        self.l1
    }

    /// The table of level 0 on the way.
    pub closed spec fn spec_l0(&self) -> Option<Level0> {
        self.l0
    }

    /// A path is made of its parts, and these are all there is to it.
    pub proof fn of_parts(
        id: u32,
        root: BlockPtr<Tree>,
        l3: Tree,
        l2: Option<Level2>,
        l1: Option<Level1>,
        l0: Option<Level0>,
    )
        ensures
            Self::of(id, root, l3, l2, l1, l0).spec_id() == id,
            Self::of(id, root, l3, l2, l1, l0).spec_root() == root,
            Self::of(id, root, l3, l2, l1, l0).spec_l3() == l3,
            Self::of(id, root, l3, l2, l1, l0).spec_l2() == l2,
            Self::of(id, root, l3, l2, l1, l0).spec_l1() == l1,
            Self::of(id, root, l3, l2, l1, l0).spec_l0() == l0,
    {
    }

    /// The id that the path leads to.
    pub fn id(&self) -> (r: u32)
        ensures
            r == self.spec_id(),
    {
        self.id
    }

    /// The pointer to the root of the tree.
    pub fn root(&self) -> (r: BlockPtr<Tree>)
        ensures
            r == self.spec_root(),
    {
        self.root
    }

    /// The root of the tree, the table of level 3.
    pub fn l3(&self) -> (r: &Tree)
        ensures
            *r == self.spec_l3(),
    {
        &self.l3
    }

    /// The table of level 2 on the way, if it exists.
    pub fn l2(&self) -> (r: &Option<Level2>)
        ensures
            *r == self.spec_l2(),
    {
        &self.l2
    }

    /// The table of level 1 on the way, if it exists.
    pub fn l1(&self) -> (r: &Option<Level1>)
        ensures
            *r == self.spec_l1(),
    {
        &self.l1
    }

    /// The table of level 0 on the way, if it exists.
    pub fn l0(&self) -> (r: &Option<Level0>)
        ensures
            *r == self.spec_l0(),
    {
        &self.l0
    }
}

impl TreePath {
    /// The pointer to the table of level 2 on the way.
    pub open spec fn p2(&self) -> BlockPtr<Level2> {
        self.spec_l3().ptrs[spec_indexes(self.spec_id()).0 as int]
    }

    /// The pointer to the table of level 1 on the way, where the table of
    /// level 2 exists.
    pub open spec fn p1(&self) -> BlockPtr<Level1> {
        self.spec_l2()->Some_0.ptrs[spec_indexes(self.spec_id()).1 as int]
    }

    /// The pointer to the table of level 0 on the way, where the table of
    /// level 1 exists.
    pub open spec fn p0(&self) -> BlockPtr<Level0> {
        self.spec_l1()->Some_0.ptrs[spec_indexes(self.spec_id()).2 as int]
    }

    /// Whether the path is one that a walk can have found: the id is not
    /// null, each table that exists stands where the pointer to it says and
    /// has the checksum that the pointer records, and a table is missing
    /// exactly where the pointer to it is null or the table above it is
    /// missing.
    pub open spec fn wf(&self) -> bool {
        &&& self.spec_id() != 0
        &&& can_stand(self.spec_root().spec_addr(), 4096)
        &&& spec_checksum(self.spec_l3().spec_bytes()) == self.spec_root().spec_hash()
        &&& self.spec_l2() is Some == !self.p2().spec_is_null()
        &&& self.spec_l2() matches Some(l2) ==> can_stand(self.p2().spec_addr(), 4096) && spec_checksum(
            l2.spec_bytes(),
        ) == self.p2().spec_hash()
        &&& self.spec_l1() is Some == (self.spec_l2() is Some && !self.p1().spec_is_null())
        &&& self.spec_l1() matches Some(l1) ==> can_stand(self.p1().spec_addr(), 4096) && spec_checksum(
            l1.spec_bytes(),
        ) == self.p1().spec_hash()
        &&& self.spec_l0() is Some == (self.spec_l1() is Some && !self.p0().spec_is_null())
        &&& self.spec_l0() matches Some(l0) ==> can_stand(self.p0().spec_addr(), 4096) && spec_checksum(
            l0.spec_bytes(),
        ) == self.p0().spec_hash()
    }

    /// The pointer to the leaf of the id, or `NotFound` where a table on
    /// the way is missing or the pointer is null.
    pub open spec fn spec_leaf(&self) -> Result<BlockPtr<BlockRaw>, TreeError> {
        match self.spec_l0() {
            Some(l0) => spec_child(l0, spec_indexes(self.spec_id()).3 as int),
            None => Err(TreeError::NotFound),
        }
    }

    /// The number of tables that are missing on the way.
    pub open spec fn spec_missing(&self) -> nat {
        (if self.spec_l2() is None {
            1nat
        } else {
            0nat
        }) + (if self.spec_l1() is None {
            1nat
        } else {
            0nat
        }) + (if self.spec_l0() is None {
            1nat
        } else {
            0nat
        })
    }

    /// The pointer to the leaf of the id, or `NotFound` where a table on
    /// the way is missing or the pointer is null.
    pub fn leaf(&self) -> (res: Result<BlockPtr<BlockRaw>, TreeError>)
        ensures
            res == self.spec_leaf(),
    {
        let id = TreePtr::<BlockRaw>::new(self.id);
        let (_, _, _, i0) = id.indexes();
        match &self.l0 {
            Some(l0) => child(l0, i0),
            None => Err(TreeError::NotFound),
        }
    }

    /// The number of tables that are missing on the way.
    pub fn missing(&self) -> (r: usize)
        ensures
            r == self.spec_missing(),
    {
        let mut count: usize = 0;
        if self.l2.is_none() {
            count += 1;
        }
        if self.l1.is_none() {
            count += 1;
        }
        if self.l0.is_none() {
            count += 1;
        }
        count
    }
}

/// Whether a walk from the table of level 1 down may take the disk from
/// `pre` to `post` and give `res`.
pub open spec fn path_read_0<D: Disk>(
    pre: D,
    post: D,
    root: BlockPtr<Tree>,
    id: u32,
    l3: Tree,
    l2: Level2,
    l1: Level1,
    res: Result<TreePath, TreeError>,
) -> bool {
    let ptr = l1.ptrs[spec_indexes(id).2 as int];
    if ptr.spec_is_null() {
        post == pre && res == Ok::<TreePath, TreeError>(
            TreePath::of(id, root, l3, Some(l2), Some(l1), None),
        )
    } else {
        exists|read: Result<Level0, TreeError>| #[trigger]
            list_read(pre, post, ptr, read) && res == match read {
                Ok(l0) => Ok::<TreePath, TreeError>(
                    TreePath::of(id, root, l3, Some(l2), Some(l1), Some(l0)),
                ),
                Err(e) => Err::<TreePath, TreeError>(e),
            }
    }
}

/// Whether a walk from the table of level 2 down may take the disk from
/// `pre` to `post` and give `res`.
pub open spec fn path_read_1<D: Disk>(
    pre: D,
    post: D,
    root: BlockPtr<Tree>,
    id: u32,
    l3: Tree,
    l2: Level2,
    res: Result<TreePath, TreeError>,
) -> bool {
    let ptr = l2.ptrs[spec_indexes(id).1 as int];
    if ptr.spec_is_null() {
        post == pre && res == Ok::<TreePath, TreeError>(
            TreePath::of(id, root, l3, Some(l2), None, None),
        )
    } else {
        exists|mid: D, read: Result<Level1, TreeError>| #[trigger]
            list_read(pre, mid, ptr, read) && match read {
                Ok(l1) => path_read_0(mid, post, root, id, l3, l2, l1, res),
                Err(e) => post == mid && res == Err::<TreePath, TreeError>(e),
            }
    }
}

/// Whether a walk from the root down may take the disk from `pre` to
/// `post` and give `res`.
pub open spec fn path_read_2<D: Disk>(
    pre: D,
    post: D,
    root: BlockPtr<Tree>,
    id: u32,
    l3: Tree,
    res: Result<TreePath, TreeError>,
) -> bool {
    let ptr = l3.ptrs[spec_indexes(id).0 as int];
    if ptr.spec_is_null() {
        post == pre && res == Ok::<TreePath, TreeError>(
            TreePath::of(id, root, l3, None, None, None),
        )
    } else {
        exists|mid: D, read: Result<Level2, TreeError>| #[trigger]
            list_read(pre, mid, ptr, read) && match read {
                Ok(l2) => path_read_1(mid, post, root, id, l3, l2, res),
                Err(e) => post == mid && res == Err::<TreePath, TreeError>(e),
            }
    }
}

/// Whether a walk towards the leaf of `id` in the tree behind `root` may
/// take the disk from `pre` to `post` and give `res`. The null id is not
/// found, and the disk is left alone. Else the root is read, then the
/// table behind its entry for the id, and so on down to the table of level
/// 0; each table is checked against the checksum of the pointer to it.
/// The first error ends the walk and is its result; a null pointer ends it
/// with the tables found so far.
pub open spec fn path_read<D: Disk>(
    pre: D,
    post: D,
    root: BlockPtr<Tree>,
    id: u32,
    res: Result<TreePath, TreeError>,
) -> bool {
    if id == 0 {
        post == pre && res == Err::<TreePath, TreeError>(TreeError::NotFound)
    } else {
        exists|mid: D, read: Result<Tree, TreeError>| #[trigger]
            list_read(pre, mid, root, read) && match read {
                Ok(l3) => path_read_2(mid, post, root, id, l3, res),
                Err(e) => post == mid && res == Err::<TreePath, TreeError>(e),
            }
    }
}

/// What a table that was read says of the pointer to it.
proof fn list_read_ok<D: Disk, T>(pre: D, post: D, ptr: BlockPtr<TreeList<T>>, list: TreeList<T>)
    requires
        list_read(pre, post, ptr, Ok::<TreeList<T>, TreeError>(list)),
    ensures
        can_stand(ptr.spec_addr(), 4096),
        spec_checksum(list.spec_bytes()) == ptr.spec_hash(),
{
}

impl TreePath {
    /// Walks from the root of the tree towards the leaf of `id`.
    pub fn load<D: Disk>(disk: &mut D, root: BlockPtr<Tree>, id: TreePtr<BlockRaw>) -> (res: Result<
        TreePath,
        TreeError,
    >)
        requires
            old(disk).inv(),
        ensures
            final(disk).inv(),
            path_read(*old(disk), *final(disk), root, id.spec_id(), res),
            res matches Ok(path) ==> path.wf() && path.spec_id() == id.spec_id() && path.spec_root()
                == root,
    {
        if id.is_null() {
            return Err(TreeError::NotFound);
        }
        let (i3, i2, i1, _) = id.indexes();
        let id = id.id();
        let l3 = match read_list(disk, root) {
            Ok(l3) => l3,
            Err(e) => {
                return Err(e);
            },
        };
        let ghost d1 = *disk;
        proof {
            list_read_ok(*old(disk), d1, root, l3);
        }
        let p2 = l3.ptrs[i3];
        if p2.is_null() {
            return Ok(TreePath { id, root, l3, l2: None, l1: None, l0: None });
        }
        let l2 = match read_list(disk, p2) {
            Ok(l2) => l2,
            Err(e) => {
                assert(path_read_2(d1, *disk, root, id, l3, Err::<TreePath, TreeError>(e)));
                return Err(e);
            },
        };
        let ghost d2 = *disk;
        proof {
            list_read_ok(d1, d2, p2, l2);
        }
        let p1 = l2.ptrs[i2];
        if p1.is_null() {
            let path = TreePath { id, root, l3, l2: Some(l2), l1: None, l0: None };
            assert(path_read_1(d2, d2, root, id, l3, l2, Ok::<TreePath, TreeError>(path)));
            assert(path_read_2(d1, d2, root, id, l3, Ok::<TreePath, TreeError>(path)));
            return Ok(path);
        }
        let l1 = match read_list(disk, p1) {
            Ok(l1) => l1,
            Err(e) => {
                assert(path_read_1(d2, *disk, root, id, l3, l2, Err::<TreePath, TreeError>(e)));
                assert(path_read_2(d1, *disk, root, id, l3, Err::<TreePath, TreeError>(e)));
                return Err(e);
            },
        };
        let ghost d3 = *disk;
        proof {
            list_read_ok(d2, d3, p1, l1);
        }
        let p0 = l1.ptrs[i1];
        if p0.is_null() {
            let path = TreePath { id, root, l3, l2: Some(l2), l1: Some(l1), l0: None };
            assert(path_read_0(d3, d3, root, id, l3, l2, l1, Ok::<TreePath, TreeError>(path)));
            assert(path_read_1(d2, d3, root, id, l3, l2, Ok::<TreePath, TreeError>(path)));
            assert(path_read_2(d1, d3, root, id, l3, Ok::<TreePath, TreeError>(path)));
            return Ok(path);
        }
        let read = read_list(disk, p0);
        let res = match read {
            Ok(l0) => {
                proof {
                    list_read_ok(d3, *disk, p0, l0);
                }
                Ok(TreePath { id, root, l3, l2: Some(l2), l1: Some(l1), l0: Some(l0) })
            },
            Err(e) => Err(e),
        };
        assert(path_read_0(d3, *disk, root, id, l3, l2, l1, res));
        assert(path_read_1(d2, *disk, root, id, l3, l2, res));
        assert(path_read_2(d1, *disk, root, id, l3, res));
        res
    }
}

/// The words of a table on the way, those of a table of null pointers
/// where the table is missing.
pub open spec fn table_words<T>(list: Option<TreeList<T>>) -> Seq<u64> {
    match list {
        Some(list) => list.spec_words(),
        None => blank_words(),
    }
}

/// Whether `fresh` holds a block for each of `needed` new tables: an
/// address at which a table can stand.
pub open spec fn fresh_ok(fresh: Seq<u64>, needed: nat) -> bool {
    &&& fresh.len() >= needed
    &&& forall|k: int| 0 <= k < needed ==> can_stand(#[trigger] fresh[k], 4096)
}

/// The blocks to write, lowest table first, and the pointer to the root
/// that they make up.
pub struct Plan {
    blocks: Vec<(u64, Vec<u8>)>,
    root: BlockPtr<Tree>,
    allocated: usize,
}

impl Plan {
    #[verifier::type_invariant]
    spec fn inv(self) -> bool {
        self.blocks@.len() == 4
    }

    /// The tables of levels 0 to 3 as bytes, each with the address of its
    /// block.
    pub closed spec fn spec_blocks(&self) -> Seq<(u64, Seq<u8>)> {
        Seq::new(self.blocks@.len(), |k: int| (self.blocks@[k].0, self.blocks@[k].1@))
    }

    /// The pointer to the root once the blocks are written.
    pub closed spec fn spec_root(&self) -> BlockPtr<Tree> {
        self.root
    }

    /// The number of tables that are new.
    pub closed spec fn spec_allocated(&self) -> nat {
        self.allocated as nat
    }

    /// The tables of levels 0 to 3 as bytes, each with the address of its
    /// block.
    pub fn blocks(&self) -> (r: &Vec<(u64, Vec<u8>)>)
        ensures
            r@.len() == self.spec_blocks().len(),
            forall|k: int|
                0 <= k < r@.len() ==> (#[trigger] r@[k]).0 == self.spec_blocks()[k].0 && r@[k].1@
                    == self.spec_blocks()[k].1,
    {
        &self.blocks
    }

    /// The pointer to the root once the blocks are written.
    pub fn root(&self) -> (r: BlockPtr<Tree>)
        ensures
            r == self.spec_root(),
    {
        self.root
    }

    /// The number of tables that are new.
    pub fn allocated(&self) -> (r: usize)
        ensures
            r == self.spec_allocated(),
    {
        self.allocated
    }
}

impl TreePath {
    /// The address of the table of level 2 once `fresh` has given the
    /// missing tables their blocks, the highest missing table first.
    pub open spec fn a2(&self, fresh: Seq<u64>) -> u64 {
        if self.spec_l2() is None {
            fresh[0]
        } else {
            self.p2().spec_addr()
        }
    }

    /// The address of the table of level 1.
    pub open spec fn a1(&self, fresh: Seq<u64>) -> u64 {
        if self.spec_l1() is None {
            fresh[self.spec_missing() - 2]
        } else {
            self.p1().spec_addr()
        }
    }

    /// The address of the table of level 0.
    pub open spec fn a0(&self, fresh: Seq<u64>) -> u64 {
        if self.spec_l0() is None {
            fresh[self.spec_missing() - 1]
        } else {
            self.p0().spec_addr()
        }
    }

    /// The bytes of the table of level 0 with `leaf` under the id.
    pub open spec fn b0(&self, leaf: (u64, u64)) -> Seq<u8> {
        words_to_bytes(set_entry(table_words(self.spec_l0()), spec_indexes(self.spec_id()).3 as int, leaf))
    }

    /// The bytes of the table of level 1 with the pointer to the new table
    /// of level 0.
    pub open spec fn b1(&self, leaf: (u64, u64), fresh: Seq<u64>) -> Seq<u8> {
        words_to_bytes(
            set_entry(
                table_words(self.spec_l1()),
                spec_indexes(self.spec_id()).2 as int,
                (self.a0(fresh), spec_checksum(self.b0(leaf))),
            ),
        )
    }

    /// The bytes of the table of level 2 with the pointer to the new table
    /// of level 1.
    pub open spec fn b2(&self, leaf: (u64, u64), fresh: Seq<u64>) -> Seq<u8> {
        words_to_bytes(
            set_entry(
                table_words(self.spec_l2()),
                spec_indexes(self.spec_id()).1 as int,
                (self.a1(fresh), spec_checksum(self.b1(leaf, fresh))),
            ),
        )
    }

    /// The bytes of the root with the pointer to the new table of level 2.
    pub open spec fn b3(&self, leaf: (u64, u64), fresh: Seq<u64>) -> Seq<u8> {
        words_to_bytes(
            set_entry(
                self.spec_l3().spec_words(),
                spec_indexes(self.spec_id()).0 as int,
                (self.a2(fresh), spec_checksum(self.b2(leaf, fresh))),
            ),
        )
    }

    /// What is to be written so that the id leads to `leaf`: each table on
    /// the way, a missing one in a block of `fresh`, with the pointer to
    /// the table below it, which carries the checksum of that table as it
    /// is written. Without a block for each missing table nothing is
    /// planned.
    pub open spec fn spec_plan(&self, leaf: (u64, u64), fresh: Seq<u64>) -> Result<
        (Seq<(u64, Seq<u8>)>, (u64, u64)),
        TreeError,
    > {
        if !fresh_ok(fresh, self.spec_missing()) {
            Err(TreeError::NoSpace)
        } else {
            Ok(
                (
                    seq![
                        (self.a0(fresh), self.b0(leaf)),
                        (self.a1(fresh), self.b1(leaf, fresh)),
                        (self.a2(fresh), self.b2(leaf, fresh)),
                        (self.spec_root().spec_addr(), self.b3(leaf, fresh)),
                    ],
                    (self.spec_root().spec_addr(), spec_checksum(self.b3(leaf, fresh))),
                ),
            )
        }
    }

    /// Plans the writes that put `leaf` under the id of the path. The
    /// blocks of `fresh` go to the missing tables, the highest first; those
    /// that are not needed are left to the caller.
    pub fn plan(self, leaf: BlockPtr<BlockRaw>, fresh: &[u64]) -> (res: Result<Plan, TreeError>)
        ensures
            match self.spec_plan(leaf@, fresh@) {
                Ok((blocks, root)) => res matches Ok(plan) && plan.spec_blocks() == blocks
                    && plan.spec_root()@ == root && plan.spec_allocated() == self.spec_missing(),
                Err(e) => res == Err::<Plan, TreeError>(e),
            },
    {
        proof {
            use_type_invariant(&self);
        }
        let needed = self.missing();
        if fresh.len() < needed {
            return Err(TreeError::NoSpace);
        }
        let mut k: usize = 0;
        while k < needed
            invariant
                k <= needed <= fresh@.len(),
                needed == self.spec_missing(),
                forall|j: int| 0 <= j < k ==> can_stand(#[trigger] fresh@[j], 4096),
            decreases needed - k,
        {
            if fresh[k] == 0 || !fits(fresh[k], 4096) {
                assert(!can_stand(fresh@[k as int], 4096));
                return Err(TreeError::NoSpace);
            }
            k += 1;
        }
        let ghost path = self;
        let ghost want = leaf@;
        let (i3, i2, i1, i0) = TreePtr::<BlockRaw>::new(self.id).indexes();
        let TreePath { id, root, l3, l2, l1, l0 } = self;
        let a2 = match &l2 {
            Some(_) => l3.ptrs[i3].addr(),
            None => fresh[0],
        };
        let a1 = match (&l1, &l2) {
            (Some(_), Some(l2)) => l2.ptrs[i2].addr(),
            _ => fresh[needed - 2],
        };
        let a0 = match (&l0, &l1) {
            (Some(_), Some(l1)) => l1.ptrs[i1].addr(),
            _ => fresh[needed - 1],
        };
        assert(a2 == path.a2(fresh@) && a1 == path.a1(fresh@) && a0 == path.a0(fresh@));
        let mut t0 = match l0 {
            Some(list) => list,
            None => Level0::new(),
        };
        t0.set(i0, leaf);
        let b0 = t0.to_bytes();
        assert(b0@ == path.b0(want));
        let mut t1 = match l1 {
            Some(list) => list,
            None => Level1::new(),
        };
        t1.set(i1, BlockPtr::new(a0, checksum(b0.as_slice())));
        let b1 = t1.to_bytes();
        assert(b1@ == path.b1(want, fresh@));
        let mut t2 = match l2 {
            Some(list) => list,
            None => Level2::new(),
        };
        t2.set(i2, BlockPtr::new(a1, checksum(b1.as_slice())));
        let b2 = t2.to_bytes();
        assert(b2@ == path.b2(want, fresh@));
        let mut t3 = l3;
        t3.set(i3, BlockPtr::new(a2, checksum(b2.as_slice())));
        let b3 = t3.to_bytes();
        assert(b3@ == path.b3(want, fresh@));
        let new_root = BlockPtr::new(root.addr(), checksum(b3.as_slice()));
        let mut blocks: Vec<(u64, Vec<u8>)> = Vec::new();
        blocks.push((a0, b0));
        blocks.push((a1, b1));
        blocks.push((a2, b2));
        blocks.push((root.addr(), b3));
        let plan = Plan { blocks, root: new_root, allocated: needed };
        assert(plan.spec_blocks() =~= path.spec_plan(want, fresh@)->Ok_0.0);
        Ok(plan)
    }
}

/// Whether writing the last of four blocks may take the disk from `pre` to
/// `post` and give `res`.
pub open spec fn written_3<D: Disk>(
    pre: D,
    post: D,
    blocks: Seq<(u64, Seq<u8>)>,
    res: Result<(), TreeError>,
) -> bool {
    block_write(pre, post, blocks[3].0, blocks[3].1, res)
}

/// Whether writing the last two of four blocks may take the disk from
/// `pre` to `post` and give `res`.
pub open spec fn written_2<D: Disk>(
    pre: D,
    post: D,
    blocks: Seq<(u64, Seq<u8>)>,
    res: Result<(), TreeError>,
) -> bool {
    exists|mid: D, wrote: Result<(), TreeError>| #[trigger]
        block_write(pre, mid, blocks[2].0, blocks[2].1, wrote) && match wrote {
            Ok(_) => written_3(mid, post, blocks, res),
            Err(e) => post == mid && res == Err::<(), TreeError>(e),
        }
}

/// Whether writing the last three of four blocks may take the disk from
/// `pre` to `post` and give `res`.
pub open spec fn written_1<D: Disk>(
    pre: D,
    post: D,
    blocks: Seq<(u64, Seq<u8>)>,
    res: Result<(), TreeError>,
) -> bool {
    exists|mid: D, wrote: Result<(), TreeError>| #[trigger]
        block_write(pre, mid, blocks[1].0, blocks[1].1, wrote) && match wrote {
            Ok(_) => written_2(mid, post, blocks, res),
            Err(e) => post == mid && res == Err::<(), TreeError>(e),
        }
}

/// Whether writing four blocks in turn may take the disk from `pre` to
/// `post` and give `res`: the first error ends the writes and is their
/// result.
pub open spec fn blocks_written<D: Disk>(
    pre: D,
    post: D,
    blocks: Seq<(u64, Seq<u8>)>,
    res: Result<(), TreeError>,
) -> bool {
    exists|mid: D, wrote: Result<(), TreeError>| #[trigger]
        block_write(pre, mid, blocks[0].0, blocks[0].1, wrote) && match wrote {
            Ok(_) => written_1(mid, post, blocks, res),
            Err(e) => post == mid && res == Err::<(), TreeError>(e),
        }
}

impl Plan {
    /// Writes the blocks of the plan in turn, the lowest table first.
    pub fn store<D: Disk>(&self, disk: &mut D) -> (res: Result<(), TreeError>)
        requires
            old(disk).inv(),
        ensures
            final(disk).inv(),
            blocks_written(*old(disk), *final(disk), self.spec_blocks(), res),
    {
        proof {
            use_type_invariant(self);
        }
        let ghost blocks = self.spec_blocks();
        let wrote = write_block(disk, self.blocks[0].0, self.blocks[0].1.as_slice());
        let ghost d1 = *disk;
        assert(block_write(*old(disk), d1, blocks[0].0, blocks[0].1, wrote));
        if let Err(e) = wrote {
            return Err(e);
        }
        let wrote = write_block(disk, self.blocks[1].0, self.blocks[1].1.as_slice());
        let ghost d2 = *disk;
        assert(block_write(d1, d2, blocks[1].0, blocks[1].1, wrote));
        if let Err(e) = wrote {
            assert(written_1(d1, d2, blocks, Err::<(), TreeError>(e)));
            return Err(e);
        }
        let wrote = write_block(disk, self.blocks[2].0, self.blocks[2].1.as_slice());
        let ghost d3 = *disk;
        assert(block_write(d2, d3, blocks[2].0, blocks[2].1, wrote));
        if let Err(e) = wrote {
            assert(written_2(d2, d3, blocks, Err::<(), TreeError>(e)));
            assert(written_1(d1, d3, blocks, Err::<(), TreeError>(e)));
            return Err(e);
        }
        let wrote = write_block(disk, self.blocks[3].0, self.blocks[3].1.as_slice());
        assert(written_3(d3, *disk, blocks, wrote));
        assert(written_2(d2, *disk, blocks, wrote));
        assert(written_1(d1, *disk, blocks, wrote));
        wrote
    }
}

/// Whether looking up `id` in the tree behind `root` may take the disk from
/// `pre` to `post` and give `res`: the walk towards the leaf, and then the
/// pointer to the leaf, which is not found where a pointer on the way or
/// the pointer to the leaf is null.
pub open spec fn looked_up<D: Disk>(
    pre: D,
    post: D,
    root: BlockPtr<Tree>,
    id: u32,
    res: Result<BlockPtr<BlockRaw>, TreeError>,
) -> bool {
    exists|walk: Result<TreePath, TreeError>| #[trigger]
        path_read(pre, post, root, id, walk) && res == match walk {
            Ok(path) => path.spec_leaf(),
            Err(e) => Err::<BlockPtr<BlockRaw>, TreeError>(e),
        }
}

/// The pointer to the leaf of `id` in the tree behind `root`. Nothing is
/// allocated and nothing is written.
pub fn lookup<D: Disk>(disk: &mut D, root: BlockPtr<Tree>, id: TreePtr<BlockRaw>) -> (res: Result<
    BlockPtr<BlockRaw>,
    TreeError,
>)
    requires
        old(disk).inv(),
    ensures
        final(disk).inv(),
        looked_up(*old(disk), *final(disk), root, id.spec_id(), res),
        id.spec_id() == 0 ==> res == Err::<BlockPtr<BlockRaw>, TreeError>(TreeError::NotFound)
            && *final(disk) == *old(disk),
        res matches Ok(leaf) ==> !leaf.spec_is_null(),
{
    let walk = TreePath::load(disk, root, id);
    assert(path_read(*old(disk), *disk, root, id.spec_id(), walk));
    match walk {
        Ok(path) => path.leaf(),
        Err(e) => Err(e),
    }
}

/// Whether putting `leaf` under `id` in the tree behind `root`, with the
/// blocks `fresh` for new tables, may take the disk from `pre` to `post`
/// and give `res`: the walk towards the leaf, the plan for each table on
/// the way, and the writes of the plan. Where the walk fails or a block
/// for a new table is wanting, nothing is written. After the writes the
/// result is the new pointer to the root and the number of new tables.
pub open spec fn inserted<D: Disk>(
    pre: D,
    post: D,
    root: BlockPtr<Tree>,
    id: u32,
    leaf: (u64, u64),
    fresh: Seq<u64>,
    res: Result<(BlockPtr<Tree>, usize), TreeError>,
) -> bool {
    exists|mid: D, walk: Result<TreePath, TreeError>| #[trigger]
        path_read(pre, mid, root, id, walk) && match walk {
            Ok(path) => match path.spec_plan(leaf, fresh) {
                Ok((blocks, new_root)) => exists|wrote: Result<(), TreeError>| #[trigger]
                    blocks_written(mid, post, blocks, wrote) && match wrote {
                        Ok(_) => res matches Ok((ptr, count)) && ptr@ == new_root && count
                            == path.spec_missing(),
                        Err(e) => res == Err::<(BlockPtr<Tree>, usize), TreeError>(e),
                    },
                Err(e) => post == mid && res == Err::<(BlockPtr<Tree>, usize), TreeError>(e),
            },
            Err(e) => post == mid && res == Err::<(BlockPtr<Tree>, usize), TreeError>(e),
        }
}

/// Puts `leaf` under `id` in the tree behind `root`. A table that is
/// missing on the way is made new in a block of `fresh`, the highest
/// missing table in the first block. Each table on the way is written with
/// the pointer to the table below it, lowest first, so that every pointer
/// up to the root carries the checksum of what it names. Returns the new
/// pointer to the root and the number of blocks of `fresh` that were used.
pub fn insert<D: Disk>(
    disk: &mut D,
    root: BlockPtr<Tree>,
    id: TreePtr<BlockRaw>,
    leaf: BlockPtr<BlockRaw>,
    fresh: &[u64],
) -> (res: Result<(BlockPtr<Tree>, usize), TreeError>)
    requires
        old(disk).inv(),
    ensures
        final(disk).inv(),
        inserted(*old(disk), *final(disk), root, id.spec_id(), leaf@, fresh@, res),
        id.spec_id() == 0 ==> res == Err::<(BlockPtr<Tree>, usize), TreeError>(TreeError::NotFound)
            && *final(disk) == *old(disk),
{
    let walk = TreePath::load(disk, root, id);
    let ghost mid = *disk;
    assert(path_read(*old(disk), mid, root, id.spec_id(), walk));
    let path = match walk {
        Ok(path) => path,
        Err(e) => {
            return Err(e);
        },
    };
    let ghost found = path;
    let plan = match path.plan(leaf, fresh) {
        Ok(plan) => plan,
        Err(e) => {
            return Err(e);
        },
    };
    let wrote = plan.store(disk);
    assert(blocks_written(mid, *disk, found.spec_plan(leaf@, fresh@)->Ok_0.0, wrote));
    match wrote {
        Ok(_) => Ok((plan.root, plan.allocated)),
        Err(e) => Err(e),
    }
}

/// Whether reading the leaf of `id` in the tree behind `root` may take the
/// disk from `pre` to `post` and give `res`: the lookup of the leaf, then
/// the read of its block, which is checked against the checksum of the
/// pointer to it.
pub open spec fn tree_read<D: Disk>(
    pre: D,
    post: D,
    root: BlockPtr<Tree>,
    id: u32,
    res: Result<TreeData<BlockRaw>, TreeError>,
) -> bool {
    exists|mid: D, found: Result<BlockPtr<BlockRaw>, TreeError>| #[trigger]
        looked_up(pre, mid, root, id, found) && match found {
            Ok(leaf) => exists|read: Result<BlockRaw, TreeError>| #[trigger]
                raw_read(mid, post, leaf, read) && match read {
                    Ok(raw) => res matches Ok(data) && data.spec_id() == id && data.spec_data()
                        == raw,
                    Err(e) => res == Err::<TreeData<BlockRaw>, TreeError>(e),
                },
            Err(e) => post == mid && res == Err::<TreeData<BlockRaw>, TreeError>(e),
        }
}

/// Reads the leaf of `id` in the tree behind `root`.
pub fn read_tree<D: Disk>(disk: &mut D, root: BlockPtr<Tree>, id: TreePtr<BlockRaw>) -> (res:
    Result<TreeData<BlockRaw>, TreeError>)
    requires
        old(disk).inv(),
    ensures
        final(disk).inv(),
        tree_read(*old(disk), *final(disk), root, id.spec_id(), res),
        id.spec_id() == 0 ==> res == Err::<TreeData<BlockRaw>, TreeError>(TreeError::NotFound)
            && *final(disk) == *old(disk),
{
    let found = lookup(disk, root, id);
    let ghost mid = *disk;
    assert(looked_up(*old(disk), mid, root, id.spec_id(), found));
    let leaf = match found {
        Ok(leaf) => leaf,
        Err(e) => {
            return Err(e);
        },
    };
    let read = read_raw(disk, leaf);
    assert(raw_read(mid, *disk, leaf, read));
    match read {
        Ok(raw) => Ok(TreeData::new(id.id(), raw)),
        Err(e) => Err(e),
    }
}

/// Whether writing `data` as the leaf at `addr` and putting it under the
/// id of `path`, with the blocks `fresh` for new tables, may take the disk
/// from `pre` to `post` and give `res`. Where the leaf cannot stand at
/// `addr` or a block for a new table is wanting, nothing is written. Else
/// the leaf is written, and then each table on the way, lowest first.
pub open spec fn leaf_put<D: Disk>(
    pre: D,
    post: D,
    path: TreePath,
    addr: u64,
    data: Seq<u8>,
    fresh: Seq<u64>,
    res: Result<(BlockPtr<Tree>, usize), TreeError>,
) -> bool {
    if !can_stand(addr, data.len()) {
        post == pre && res == Err::<(BlockPtr<Tree>, usize), TreeError>(TreeError::Layout)
    } else {
        match path.spec_plan((addr, spec_checksum(data)), fresh) {
            Ok((blocks, new_root)) => exists|mid: D, wrote: Result<(), TreeError>| #[trigger]
                block_write(pre, mid, addr, data, wrote) && match wrote {
                    Ok(_) => exists|stored: Result<(), TreeError>| #[trigger]
                        blocks_written(mid, post, blocks, stored) && match stored {
                            Ok(_) => res matches Ok((ptr, count)) && ptr@ == new_root && count
                                == path.spec_missing(),
                            Err(e) => res == Err::<(BlockPtr<Tree>, usize), TreeError>(e),
                        },
                    Err(e) => post == mid && res == Err::<(BlockPtr<Tree>, usize), TreeError>(e),
                },
            Err(e) => post == pre && res == Err::<(BlockPtr<Tree>, usize), TreeError>(e),
        }
    }
}

/// Writes `data` as the leaf at `addr` and puts it under the id of `path`.
fn put_leaf<D: Disk>(disk: &mut D, path: TreePath, addr: u64, data: &BlockRaw, fresh: &[u64]) -> (res:
    Result<(BlockPtr<Tree>, usize), TreeError>)
    requires
        old(disk).inv(),
    ensures
        final(disk).inv(),
        leaf_put(*old(disk), *final(disk), path, addr, data.0@, fresh@, res),
{
    if addr == 0 || !fits(addr, 512) {
        return Err(TreeError::Layout);
    }
    let leaf = BlockPtr::new(addr, checksum(&data.0));
    let plan = match path.plan(leaf, fresh) {
        Ok(plan) => plan,
        Err(e) => {
            return Err(e);
        },
    };
    let wrote = write_block(disk, addr, &data.0);
    let ghost mid = *disk;
    assert(block_write(*old(disk), mid, addr, data.0@, wrote));
    if let Err(e) = wrote {
        return Err(e);
    }
    let stored = plan.store(disk);
    assert(blocks_written(mid, *disk, plan.spec_blocks(), stored));
    match stored {
        Ok(_) => Ok((plan.root, plan.allocated)),
        Err(e) => Err(e),
    }
}

/// Whether putting `data` under `id` in the tree behind `root`, as the leaf
/// at `addr` and with the blocks `fresh` for new tables, may take the disk
/// from `pre` to `post` and give `res`: the walk towards the leaf, then the
/// writes of the leaf and of the tables on the way.
pub open spec fn tree_inserted<D: Disk>(
    pre: D,
    post: D,
    root: BlockPtr<Tree>,
    id: u32,
    addr: u64,
    data: Seq<u8>,
    fresh: Seq<u64>,
    res: Result<(BlockPtr<Tree>, usize), TreeError>,
) -> bool {
    exists|mid: D, walk: Result<TreePath, TreeError>| #[trigger]
        path_read(pre, mid, root, id, walk) && match walk {
            Ok(path) => leaf_put(mid, post, path, addr, data, fresh, res),
            Err(e) => post == mid && res == Err::<(BlockPtr<Tree>, usize), TreeError>(e),
        }
}

/// Puts `data` under `id` in the tree behind `root`: writes it as the leaf
/// at `addr`, makes the tables that are missing on the way in the blocks of
/// `fresh`, and writes every table on the way with the checksum of what is
/// below it. Returns the new pointer to the root and the number of blocks
/// of `fresh` that were used.
pub fn insert_tree<D: Disk>(
    disk: &mut D,
    root: BlockPtr<Tree>,
    id: TreePtr<BlockRaw>,
    addr: u64,
    data: &BlockRaw,
    fresh: &[u64],
) -> (res: Result<(BlockPtr<Tree>, usize), TreeError>)
    requires
        old(disk).inv(),
    ensures
        final(disk).inv(),
        tree_inserted(*old(disk), *final(disk), root, id.spec_id(), addr, data.0@, fresh@, res),
        id.spec_id() == 0 ==> res == Err::<(BlockPtr<Tree>, usize), TreeError>(TreeError::NotFound)
            && *final(disk) == *old(disk),
{
    let walk = TreePath::load(disk, root, id);
    let ghost mid = *disk;
    assert(path_read(*old(disk), mid, root, id.spec_id(), walk));
    match walk {
        Ok(path) => put_leaf(disk, path, addr, data, fresh),
        Err(e) => Err(e),
    }
}

/// Whether writing `data` back to the leaf of `id` in the tree behind
/// `root` may take the disk from `pre` to `post` and give `res`: the walk
/// towards the leaf, which must exist, then the writes of the leaf where it
/// stands and of the tables on the way.
pub open spec fn tree_stored<D: Disk>(
    pre: D,
    post: D,
    root: BlockPtr<Tree>,
    id: u32,
    data: Seq<u8>,
    res: Result<BlockPtr<Tree>, TreeError>,
) -> bool {
    exists|mid: D, walk: Result<TreePath, TreeError>| #[trigger]
        path_read(pre, mid, root, id, walk) && match walk {
            Ok(path) => match path.spec_leaf() {
                Ok(leaf) => exists|put: Result<(BlockPtr<Tree>, usize), TreeError>| #[trigger]
                    leaf_put(mid, post, path, leaf.spec_addr(), data, Seq::<u64>::empty(), put)
                        && match put {
                        Ok((ptr, _)) => res == Ok::<BlockPtr<Tree>, TreeError>(ptr),
                        Err(e) => res == Err::<BlockPtr<Tree>, TreeError>(e),
                    },
                Err(e) => post == mid && res == Err::<BlockPtr<Tree>, TreeError>(e),
            },
            Err(e) => post == mid && res == Err::<BlockPtr<Tree>, TreeError>(e),
        }
}

/// Writes the contents of `data` back to the leaf that its id names in the
/// tree behind `root`, and every table on the way with the checksum of what
/// is below it. Returns the new pointer to the root.
pub fn store_tree<D: Disk>(disk: &mut D, root: BlockPtr<Tree>, data: &TreeData<BlockRaw>) -> (res:
    Result<BlockPtr<Tree>, TreeError>)
    requires
        old(disk).inv(),
    ensures
        final(disk).inv(),
        tree_stored(*old(disk), *final(disk), root, data.spec_id(), data.spec_data().0@, res),
        data.spec_id() == 0 ==> res == Err::<BlockPtr<Tree>, TreeError>(TreeError::NotFound)
            && *final(disk) == *old(disk),
{
    let walk = TreePath::load(disk, root, TreePtr::new(data.id()));
    let ghost mid = *disk;
    assert(path_read(*old(disk), mid, root, data.spec_id(), walk));
    let path = match walk {
        Ok(path) => path,
        Err(e) => {
            return Err(e);
        },
    };
    let leaf = match path.leaf() {
        Ok(leaf) => leaf,
        Err(e) => {
            return Err(e);
        },
    };
    let fresh: [u64; 0] = [];
    assert(fresh@ =~= Seq::<u64>::empty());
    let put = put_leaf(disk, path, leaf.addr(), data.data(), &fresh);
    assert(leaf_put(mid, *disk, path, leaf.spec_addr(), data.spec_data().0@, Seq::<u64>::empty(), put));
    match put {
        Ok((ptr, _)) => Ok(ptr),
        Err(e) => Err(e),
    }
}

/// The tables that a plan writes, read back as they were written, pass
/// the check of every checksum from the root down and lead to the leaf that
/// was put under the id: no table is missing any more, and each pointer on
/// the way names the block of the table below it and carries the checksum
/// of its bytes.
pub proof fn planned_path_leads_to_leaf(
    path: TreePath,
    leaf: (u64, u64),
    fresh: Seq<u64>,
    after: TreePath,
)
    requires
        path.wf(),
        path.spec_plan(leaf, fresh) is Ok,
        after.spec_id() == path.spec_id(),
        after.spec_root()@ == path.spec_plan(leaf, fresh)->Ok_0.1,
        after.spec_l3().spec_bytes() == path.spec_plan(leaf, fresh)->Ok_0.0[3].1,
        after.spec_l2() matches Some(l2) && l2.spec_bytes() == path.spec_plan(leaf, fresh)->Ok_0.0[2].1,
        after.spec_l1() matches Some(l1) && l1.spec_bytes() == path.spec_plan(leaf, fresh)->Ok_0.0[1].1,
        after.spec_l0() matches Some(l0) && l0.spec_bytes() == path.spec_plan(leaf, fresh)->Ok_0.0[0].1,
    ensures
        after.p2()@ == (path.a2(fresh), spec_checksum(after.spec_l2()->Some_0.spec_bytes())),
        after.p1()@ == (path.a1(fresh), spec_checksum(after.spec_l1()->Some_0.spec_bytes())),
        after.p0()@ == (path.a0(fresh), spec_checksum(after.spec_l0()->Some_0.spec_bytes())),
        after.spec_root().spec_hash() == spec_checksum(after.spec_l3().spec_bytes()),
        after.wf(),
        after.spec_missing() == 0,
        after.spec_l0()->Some_0.ptrs[spec_indexes(path.spec_id()).3 as int]@ == leaf,
        leaf.0 != 0 ==> (after.spec_leaf() matches Ok(found) && found@ == leaf),
        leaf.0 == 0 ==> after.spec_leaf() == Err::<BlockPtr<BlockRaw>, TreeError>(
            TreeError::NotFound,
        ),
{
    let (i3, i2, i1, i0) = spec_indexes(path.spec_id());
    crate::tree::id_round_trip(path.spec_id());
    let w0 = set_entry(table_words(path.spec_l0()), i0 as int, leaf);
    let w1 = set_entry(
        table_words(path.spec_l1()),
        i1 as int,
        (path.a0(fresh), spec_checksum(path.b0(leaf))),
    );
    let w2 = set_entry(
        table_words(path.spec_l2()),
        i2 as int,
        (path.a1(fresh), spec_checksum(path.b1(leaf, fresh))),
    );
    let w3 = set_entry(
        path.spec_l3().spec_words(),
        i3 as int,
        (path.a2(fresh), spec_checksum(path.b2(leaf, fresh))),
    );
    crate::layout::words_round_trip(w0);
    crate::layout::words_round_trip(w1);
    crate::layout::words_round_trip(w2);
    crate::layout::words_round_trip(w3);
    crate::layout::words_round_trip(after.spec_l0()->Some_0.spec_words());
    crate::layout::words_round_trip(after.spec_l1()->Some_0.spec_words());
    crate::layout::words_round_trip(after.spec_l2()->Some_0.spec_words());
    crate::layout::words_round_trip(after.spec_l3().spec_words());
    assert(after.spec_l0()->Some_0.spec_words() == w0);
    assert(after.spec_l1()->Some_0.spec_words() == w1);
    assert(after.spec_l2()->Some_0.spec_words() == w2);
    assert(after.spec_l3().spec_words() == w3);
    assert(w0[2 * i0] == leaf.0 && w0[2 * i0 + 1] == leaf.1);
    assert(w1[2 * i1] == path.a0(fresh) && w1[2 * i1 + 1] == spec_checksum(path.b0(leaf)));
    assert(w2[2 * i2] == path.a1(fresh) && w2[2 * i2 + 1] == spec_checksum(path.b1(leaf, fresh)));
    assert(w3[2 * i3] == path.a2(fresh) && w3[2 * i3 + 1] == spec_checksum(path.b2(leaf, fresh)));
}

} // verus!
