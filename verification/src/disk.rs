//! What the cache and the tree ask of a disk.

use syscall::error::Error;
use vstd::prelude::*;

verus! {

/// `syscall::error::Error`, the error of a disk. It is handed on as it
/// came; nothing is known of what is inside a value.
#[verifier::external_type_specification]
#[verifier::external_body]
pub struct ExError(Error);

/// The number of pages that `len` bytes span; the last one may be partly
/// filled.
pub open spec fn page_count(len: nat) -> nat {
    (len + 511) / 512
}

/// Whether every page of a transfer of `len` bytes that starts at `block`
/// has a block number.
pub open spec fn in_range(block: u64, len: nat) -> bool {
    block + page_count(len) <= u64::MAX + 1
}

/// `len` bytes that are all 0.
pub open spec fn zeros(len: nat) -> Seq<u8> {
    Seq::new(len, |i: int| 0u8)
}

/// The number of pages that `len` bytes span.
pub fn page_total(len: usize) -> (count: usize)
    ensures
        count == page_count(len as nat),
{
    if len % 512 == 0 {
        len / 512
    } else {
        len / 512 + 1
    }
}

/// A disk: pages of 512 bytes, numbered from 0, that can be read and
/// written in runs.
///
/// What a disk does on a call is up to the disk. `inv` says in which
/// states the disk can be called; the three other predicates say which
/// results and which changes of the disk a call may have. A disk that
/// states nothing of itself leaves them as they are, always true. No
/// method promises to succeed.
pub trait Disk {
    /// Whether the disk is in a state in which its methods can be called.
    /// Every method keeps it so.
    open spec fn inv(&self) -> bool {
        true
    }

    /// Whether `read_at` on the disk `pre`, asked for the pages from `block`
    /// on with a buffer that held `before`, may leave the disk as `post`
    /// and the buffer as `after` and return `res`.
    open spec fn read_spec(
        pre: &Self,
        post: &Self,
        block: u64,
        before: Seq<u8>,
        after: Seq<u8>,
        res: Result<usize, Error>,
    ) -> bool {
        true
    }

    /// Whether `write_at` on the disk `pre`, given `data` for the pages from
    /// `block` on, may leave the disk as `post` and return `res`.
    open spec fn write_spec(
        pre: &Self,
        post: &Self,
        block: u64,
        data: Seq<u8>,
        res: Result<usize, Error>,
    ) -> bool {
        true
    }

    /// Whether `size` on the disk `pre` may leave the disk as `post` and
    /// return `res`.
    open spec fn size_spec(pre: &Self, post: &Self, res: Result<u64, Error>) -> bool {
        true
    }

    /// Reads the pages from `block` on into `buffer`, as many bytes as the
    /// buffer holds, and returns the number of bytes read.
    fn read_at(&mut self, block: u64, buffer: &mut [u8]) -> (res: Result<usize, Error>)
        requires
            old(self).inv(),
            in_range(block, old(buffer)@.len()),
        ensures
            final(self).inv(),
            final(buffer)@.len() == old(buffer)@.len(),
            Self::read_spec(old(self), final(self), block, old(buffer)@, final(buffer)@, res),
    ;

    /// Writes `buffer` to the pages from `block` on and returns the number
    /// of bytes written.
    fn write_at(&mut self, block: u64, buffer: &[u8]) -> (res: Result<usize, Error>)
        requires
            old(self).inv(),
            in_range(block, buffer@.len()),
        ensures
            final(self).inv(),
            Self::write_spec(old(self), final(self), block, buffer@, res),
    ;

    /// The size of the disk in pages.
    fn size(&mut self) -> (res: Result<u64, Error>)
        requires
            old(self).inv(),
        ensures
            final(self).inv(),
            Self::size_spec(old(self), final(self), res),
    ;
}

} // verus!
