//! A write-through cache of disk pages that stands in front of any disk
//! and is a disk itself.

use crate::disk::{in_range, page_count, page_total, Disk};
use crate::lru::{
    distinct_keys, entry_place, has_key, position, put, put_all, put_all_tail, touch, touch_all,
    touch_all_keeps, value_of, LruCache,
};
use syscall::error::Error;
use vstd::prelude::*;

verus! {

/// Pages that a cache holds unless it is made for another number: 32 MiB.
pub const DEFAULT_CAPACITY: usize = 65536;

/// Page `i` of `data`: its bytes from `512 * i` on, 512 of them, with
/// zeros where the data ends before the page does.
pub open spec fn page_of(data: Seq<u8>, i: int) -> Seq<u8> {
    Seq::new(
        512,
        |j: int|
            if 512 * i + j < data.len() {
                data[512 * i + j]
            } else {
                0u8
            },
    )
}

/// The pages of `data` with their block numbers, where the first page is
/// block `block`.
pub open spec fn pages_of(block: u64, data: Seq<u8>) -> Seq<(u64, Seq<u8>)> {
    Seq::new(page_count(data.len()), |i: int| ((block + i) as u64, page_of(data, i)))
}

/// The block numbers of `n` pages from `block` on.
pub open spec fn blocks_from(block: u64, n: nat) -> Seq<u64> {
    Seq::new(n, |i: int| (block + i) as u64)
}

/// How many of the `n` pages from `block` on are found in `entries` before
/// the first that is missing.
pub open spec fn hits(entries: Seq<(u64, Seq<u8>)>, block: u64, n: nat) -> nat
    decreases n,
{
    if n == 0 {
        0
    } else {
        let before = hits(entries, block, (n - 1) as nat);
        if before == n - 1 && has_key(entries, (block + n - 1) as u64) {
            n
        } else {
            before
        }
    }
}

/// The buffer `before` with the bytes of its first `k` pages taken from
/// `entries`, where the first page is block `block`.
pub open spec fn overlay(
    before: Seq<u8>,
    entries: Seq<(u64, Seq<u8>)>,
    block: u64,
    k: nat,
) -> Seq<u8> {
    Seq::new(
        before.len(),
        |j: int|
            if j < 512 * k {
                value_of(entries, (block + j / 512) as u64)[j % 512]
            } else {
                before[j]
            },
    )
}

/// The entries of a cache with each page as a sequence of bytes.
pub open spec fn page_views(entries: Seq<(u64, [u8; 512])>) -> Seq<(u64, Seq<u8>)> {
    Seq::new(entries.len(), |i: int| (entries[i].0, entries[i].1@))
}

/// A cache of the pages of the disk `T`.
pub struct Cache<T> {
    inner: T,
    cache: LruCache<[u8; 512]>,
}

impl<T> View for Cache<T> {
    type V = Seq<(u64, Seq<u8>)>;

    /// The cached pages with their block numbers, from the least to the
    /// most recently used.
    closed spec fn view(&self) -> Seq<(u64, Seq<u8>)> {
        page_views(self.cache@)
    }
}

impl<T> Cache<T> {
    /// Whether the cache is in order inside, as every cache is that this
    /// module hands out.
    pub closed spec fn wf(&self) -> bool {
        self.cache.wf()
    }

    /// The disk behind the cache.
    pub closed spec fn inner(&self) -> T {
        self.inner
    }

    /// The number of pages that the cache has room for.
    pub closed spec fn spec_capacity(&self) -> nat {
        self.cache.spec_capacity()
    }

    /// What well-formedness says of the cached pages: no block has two, and
    /// there are no more than the cache has room for.
    pub proof fn wf_pages(&self)
        requires
            self.wf(),
        ensures
            distinct_keys(self@),
            self@.len() <= self.spec_capacity(),
    {
        self.cache.wf_entries();
        views_keys(self.cache@);
    }
}

impl<T: Disk> Cache<T> {
    /// An empty cache in front of `inner` with room for 65536 pages.
    pub fn new(inner: T) -> (r: Self)
        ensures
            r.wf(),
            r.inner() == inner,
            r@ == Seq::<(u64, Seq<u8>)>::empty(),
            r.spec_capacity() == 65536,
    {
        Self::with_capacity(inner, DEFAULT_CAPACITY)
    }

    /// An empty cache in front of `inner` with room for `capacity` pages.
    pub fn with_capacity(inner: T, capacity: usize) -> (r: Self)
        ensures
            r.wf(),
            r.inner() == inner,
            r@ == Seq::<(u64, Seq<u8>)>::empty(),
            r.spec_capacity() == capacity,
    {
        let r = Cache { inner, cache: LruCache::new(capacity) };
        assert(r@ =~= Seq::<(u64, Seq<u8>)>::empty());
        r
    }

    /// Stores every page of `data` in the cache, the first as block `block`.
    fn fill(&mut self, block: u64, data: &[u8])
        requires
            old(self).wf(),
            in_range(block, data@.len()),
        ensures
            final(self).wf(),
            final(self).inner() == old(self).inner(),
            final(self).spec_capacity() == old(self).spec_capacity(),
            final(self)@ == put_all(old(self)@, old(self).spec_capacity(), pages_of(block, data@)),
    {
        let len = data.len();
        let count = page_total(len);
        let ghost items = pages_of(block, data@);
        let ghost capacity = self.spec_capacity();
        let mut i: usize = 0;
        while i < count
            invariant
                i <= count,
                count == page_count(len as nat),
                len == data@.len(),
                in_range(block, len as nat),
                items == pages_of(block, data@),
                self.cache.wf(),
                self.inner == old(self).inner,
                self.cache.spec_capacity() == capacity,
                self@ == put_all(old(self)@, capacity, items.subrange(0, i as int)),
            decreases count - i,
        {
            let block_i = block + i as u64;
            let start = i * 512;
            let end = if len - start < 512 {
                len
            } else {
                start + 512
            };
            let mut cache_buf = [0u8;512];
            copy_memory(&data[start..end], &mut cache_buf);
            proof {
                assert(cache_buf@ =~= page_of(data@, i as int));
                assert(items[i as int] == (block_i, cache_buf@));
                assert(items.subrange(0, i + 1).drop_last() =~= items.subrange(0, i as int));
                self.cache.wf_entries();
                views_put(self.cache@, capacity, block_i, cache_buf);
            }
            self.cache.insert(block_i, cache_buf);
            i += 1;
        }
        proof {
            assert(items.subrange(0, count as int) =~= items);
        }
    }
}

impl<T: Disk> Disk for Cache<T> {
    /// The cache is in order inside and the disk behind it can be called.
    open spec fn inv(&self) -> bool {
        self.wf() && self.inner().inv()
    }

    /// The cache stays in order and keeps its room. A read of pages that
    /// are all in the cache is answered from the cache, counts as a use of
    /// each of them, and leaves the disk alone.
    /// Where a page is missing, the pages before it have been used and
    /// copied into the buffer; then the disk is asked once for the whole
    /// range. Its error is handed on; after its success every page of the
    /// range is stored in the cache as the buffer then holds it.
    open spec fn read_spec(
        pre: &Self,
        post: &Self,
        block: u64,
        before: Seq<u8>,
        after: Seq<u8>,
        res: Result<usize, Error>,
    ) -> bool {
        let n = page_count(before.len());
        let k = hits(pre@, block, n);
        let used = touch_all(pre@, blocks_from(block, k));
        let partial = overlay(before, pre@, block, k);
        &&& post.wf()
        &&& post.spec_capacity() == pre.spec_capacity()
        &&& if k == n {
            &&& res == Ok::<usize, Error>(before.len() as usize)
            &&& post.inner() == pre.inner()
            &&& post@ == used
            &&& after == partial
        } else {
            match res {
                Ok(count) => {
                    &&& count == before.len()
                    &&& exists|m: usize| #[trigger]
                        T::read_spec(
                            &pre.inner(),
                            &post.inner(),
                            block,
                            partial,
                            after,
                            Ok::<usize, Error>(m),
                        )
                    &&& post@ == put_all(used, pre.spec_capacity(), pages_of(block, after))
                },
                Err(e) => {
                    &&& T::read_spec(&pre.inner(), &post.inner(), block, partial, after, Err(e))
                    &&& post@ == used
                },
            }
        }
    }

    /// The disk is asked to write first. Its error is handed on and the
    /// cache stays as it was; after its success every page of the data is
    /// stored in the cache.
    open spec fn write_spec(
        pre: &Self,
        post: &Self,
        block: u64,
        data: Seq<u8>,
        res: Result<usize, Error>,
    ) -> bool {
        &&& post.wf()
        &&& post.spec_capacity() == pre.spec_capacity()
        &&& match res {
            Ok(count) => {
                &&& count == data.len()
                &&& exists|m: usize| #[trigger]
                    T::write_spec(
                        &pre.inner(),
                        &post.inner(),
                        block,
                        data,
                        Ok::<usize, Error>(m),
                    )
                &&& post@ == put_all(pre@, pre.spec_capacity(), pages_of(block, data))
            },
            Err(e) => {
                &&& T::write_spec(&pre.inner(), &post.inner(), block, data, Err(e))
                &&& post@ == pre@
            },
        }
    }

    /// The size is that of the disk; the cache stays as it was.
    open spec fn size_spec(pre: &Self, post: &Self, res: Result<u64, Error>) -> bool {
        &&& post.wf()
        &&& post.spec_capacity() == pre.spec_capacity()
        &&& T::size_spec(&pre.inner(), &post.inner(), res)
        &&& post@ == pre@
    }

    /// Reads the pages from `block` on into `buffer`: from the cache where
    /// it holds them all, else from the disk behind it.
    fn read_at(&mut self, block: u64, buffer: &mut [u8]) -> (res: Result<usize, Error>) {
        proof {
            self.cache.wf_entries();
            views_keys(self.cache@);
        }
        let len = buffer.len();
        let count = page_total(len);
        let ghost entries = self.cache@;
        let ghost before = buffer@;
        let mut i: usize = 0;
        let mut failed = false;
        while i < count && !failed
            invariant
                i <= count,
                count == page_count(len as nat),
                len == buffer@.len(),
                before.len() == len,
                in_range(block, len as nat),
                self.cache.wf(),
                distinct_keys(entries),
                entries == old(self).cache@,
                self.inner == old(self).inner,
                self.cache.spec_capacity() == old(self).cache.spec_capacity(),
                self.cache@ == touch_all(entries, blocks_from(block, i as nat)),
                buffer@ == overlay(before, page_views(entries), block, i as nat),
                hits(page_views(entries), block, i as nat) == i,
                failed ==> i < count && !has_key(entries, (block + i) as u64),
            decreases count - i + if failed { 0int } else { 1int },
        {
            let block_i = block + i as u64;
            let ghost current = self.cache@;
            proof {
                touch_all_keeps(entries, blocks_from(block, i as nat), block_i);
            }
            match self.cache.get_mut(block_i) {
                Some(page) => {
                    let cached: [u8; 512] = *page;
                    let ghost held = buffer@;
                    let (_, rest) = buffer.split_at_mut(i * 512);
                    copy_memory(&cached, rest);
                    proof {
                        let at = position(current, block_i);
                        assert(current.remove(at).push((block_i, cached)) == touch(
                            current,
                            block_i,
                        ));
                        assert(blocks_from(block, (i + 1) as nat).drop_last() =~= blocks_from(
                            block,
                            i as nat,
                        ));
                        views_value(entries, block_i);
                        assert(cached@ == value_of(page_views(entries), block_i));
                        assert(buffer@ =~= overlay(
                            before,
                            page_views(entries),
                            block,
                            (i + 1) as nat,
                        )) by {
                            assert forall|j: int| 0 <= j < len implies buffer@[j] == #[trigger] overlay(
                                before,
                                page_views(entries),
                                block,
                                (i + 1) as nat,
                            )[j] by {
                                if j < 512 * i {
                                    assert(buffer@[j] == held[j]);
                                } else if j < 512 * i + 512 {
                                    assert(j / 512 == i);
                                    assert(j % 512 == j - 512 * i);
                                } else {
                                    assert(buffer@[j] == held[j]);
                                }
                            }
                        }
                        views_has_key(entries, block_i);
                    }
                    i += 1;
                },
                None => {
                    failed = true;
                },
            }
        }
        proof {
            views_touch_all(entries, blocks_from(block, i as nat));
            if failed {
                views_has_key(entries, (block + i) as u64);
                hits_stop(page_views(entries), block, i as nat, count as nat);
            }
        }
        if !failed {
            return Ok(len);
        }
        let ghost partial = buffer@;
        match self.inner.read_at(block, buffer) {
            Ok(m) => {
                assert(T::read_spec(
                    &old(self).inner,
                    &self.inner,
                    block,
                    partial,
                    buffer@,
                    Ok::<usize, Error>(m),
                ));
            },
            Err(e) => {
                return Err(e);
            },
        }
        self.fill(block, buffer);
        Ok(len)
    }

    /// Writes `buffer` to the pages from `block` on: to the disk behind the
    /// cache, and after that to the cache.
    fn write_at(&mut self, block: u64, buffer: &[u8]) -> (res: Result<usize, Error>) {
        match self.inner.write_at(block, buffer) {
            Ok(m) => {
                assert(T::write_spec(
                    &old(self).inner,
                    &self.inner,
                    block,
                    buffer@,
                    Ok::<usize, Error>(m),
                ));
            },
            Err(e) => {
                return Err(e);
            },
        }
        self.fill(block, buffer);
        Ok(buffer.len())
    }

    /// The size of the disk behind the cache.
    fn size(&mut self) -> (res: Result<u64, Error>) {
        self.inner.size()
    }
}

/// Where each of the `n` pages from `block` on is found, all `n` count.
proof fn hits_all(entries: Seq<(u64, Seq<u8>)>, block: u64, n: nat)
    requires
        forall|i: int| 0 <= i < n ==> has_key(entries, #[trigger] ((block + i) as u64)),
    ensures
        hits(entries, block, n) == n,
    decreases n,
{
    if n > 0 {
        hits_all(entries, block, (n - 1) as nat);
        assert(has_key(entries, (block + (n - 1)) as u64));
    }
}

/// After the pages of `data` were stored, no more of them than there is
/// room for, each of them is found in the cache as it was stored, and a
/// buffer of the length of `data` that takes all its pages from the cache
/// holds `data`.
pub proof fn stored_pages_found(
    entries: Seq<(u64, Seq<u8>)>,
    capacity: nat,
    block: u64,
    data: Seq<u8>,
    before: Seq<u8>,
)
    requires
        distinct_keys(entries),
        entries.len() <= capacity,
        in_range(block, data.len()),
        page_count(data.len()) <= capacity,
        before.len() == data.len(),
    ensures
        distinct_keys(put_all(entries, capacity, pages_of(block, data))),
        put_all(entries, capacity, pages_of(block, data)).len() <= capacity,
        forall|i: int|
            0 <= i < page_count(data.len()) ==> has_key(
                put_all(entries, capacity, pages_of(block, data)),
                #[trigger] ((block + i) as u64),
            ) && value_of(put_all(entries, capacity, pages_of(block, data)), (block + i) as u64)
                == page_of(data, i),
        hits(put_all(entries, capacity, pages_of(block, data)), block, page_count(data.len()))
            == page_count(data.len()),
        overlay(
            before,
            put_all(entries, capacity, pages_of(block, data)),
            block,
            page_count(data.len()),
        ) == data,
{
    let n = page_count(data.len());
    let items = pages_of(block, data);
    let stored = put_all(entries, capacity, items);
    assert forall|i: int, j: int| 0 <= i < j < items.len() implies (#[trigger] items[i]).0 != (
    #[trigger] items[j]).0 by {}
    put_all_tail(entries, capacity, items);
    let base = stored.len() - n;
    assert forall|i: int| 0 <= i < n implies has_key(stored, #[trigger] ((block + i) as u64))
        && value_of(stored, (block + i) as u64) == page_of(data, i) by {
        assert(stored.subrange(base, stored.len() as int)[i] == items[i]);
        entry_place(stored, base + i);
    }
    hits_all(stored, block, n);
    assert(overlay(before, stored, block, n) =~= data) by {
        assert forall|j: int| 0 <= j < data.len() implies #[trigger] overlay(
            before,
            stored,
            block,
            n,
        )[j] == data[j] by {
            let i = j / 512;
            assert(0 <= i < n);
            assert(value_of(stored, (block + i) as u64) == page_of(data, i));
            assert(page_of(data, i)[j % 512] == data[512 * i + j % 512]);
        }
    }
}

/// A read right after a write of the same pages, no more of them than the
/// cache has room for, returns exactly the bytes that were written and
/// leaves the disk as the write left it: the disk is not asked.
pub proof fn read_after_write<T: Disk>(
    start: Cache<T>,
    written: Cache<T>,
    read: Cache<T>,
    block: u64,
    data: Seq<u8>,
    wrote: Result<usize, Error>,
    before: Seq<u8>,
    after: Seq<u8>,
    got: Result<usize, Error>,
)
    requires
        start.wf(),
        in_range(block, data.len()),
        page_count(data.len()) <= start.spec_capacity(),
        Cache::<T>::write_spec(&start, &written, block, data, wrote),
        wrote is Ok,
        before.len() == data.len(),
        Cache::<T>::read_spec(&written, &read, block, before, after, got),
    ensures
        got == Ok::<usize, Error>(data.len() as usize),
        after == data,
        read.inner() == written.inner(),
{
    start.wf_pages();
    stored_pages_found(start@, start.spec_capacity(), block, data, before);
}

/// A read that finds a page missing asks the disk once, for the whole
/// range and with the buffer as the pages found so far left it. After the
/// disk's success every page of the range, no more of them than the cache
/// has room for, is found in the cache as the disk gave it.
pub proof fn miss_reads_whole_range<T: Disk>(
    start: Cache<T>,
    read: Cache<T>,
    block: u64,
    before: Seq<u8>,
    after: Seq<u8>,
    got: Result<usize, Error>,
)
    requires
        start.wf(),
        in_range(block, before.len()),
        page_count(before.len()) <= start.spec_capacity(),
        hits(start@, block, page_count(before.len())) < page_count(before.len()),
        after.len() == before.len(),
        Cache::<T>::read_spec(&start, &read, block, before, after, got),
        got is Ok,
    ensures
        exists|m: usize| #[trigger]
            T::read_spec(
                &start.inner(),
                &read.inner(),
                block,
                overlay(before, start@, block, hits(start@, block, page_count(before.len()))),
                after,
                Ok::<usize, Error>(m),
            ),
        forall|i: int|
            0 <= i < page_count(before.len()) ==> has_key(read@, #[trigger] ((block + i) as u64))
                && value_of(read@, (block + i) as u64) == page_of(after, i),
        hits(read@, block, page_count(before.len())) == page_count(before.len()),
{
    start.wf_pages();
    let k = hits(start@, block, page_count(before.len()));
    let used = touch_all(start@, blocks_from(block, k));
    touch_all_keeps(start@, blocks_from(block, k), 0);
    stored_pages_found(used, start.spec_capacity(), block, after, before);
}

/// Copies the bytes of `src` to the start of `dest`, as many as `dest` has
/// room for, and returns their number.
fn copy_memory(src: &[u8], dest: &mut [u8]) -> (len: usize)
    ensures
        len == if src@.len() < old(dest)@.len() {
            src@.len()
        } else {
            old(dest)@.len()
        },
        final(dest)@ == src@.subrange(0, len as int) + old(dest)@.subrange(
            len as int,
            old(dest)@.len() as int,
        ),
{
    let len = if src.len() < dest.len() {
        src.len()
    } else {
        dest.len()
    };
    let mut i: usize = 0;
    while i < len
        invariant
            i <= len,
            len <= src@.len(),
            len <= dest@.len(),
            dest@.len() == old(dest)@.len(),
            dest@ == src@.subrange(0, i as int) + old(dest)@.subrange(
                i as int,
                old(dest)@.len() as int,
            ),
        decreases len - i,
    {
        dest[i] = src[i];
        assert(dest@ =~= src@.subrange(0, i + 1) + old(dest)@.subrange(
            i + 1,
            old(dest)@.len() as int,
        ));
        i += 1;
    }
    len
}

/// The pages as sequences have the keys of the pages as arrays.
proof fn views_keys(entries: Seq<(u64, [u8; 512])>)
    ensures
        distinct_keys(entries) ==> distinct_keys(page_views(entries)),
        page_views(entries).len() == entries.len(),
{
    let views = page_views(entries);
    if distinct_keys(entries) {
        assert forall|i: int, j: int| 0 <= i < j < views.len() implies (#[trigger] views[i]).0 != (
        #[trigger] views[j]).0 by {
            assert(entries[i].0 != entries[j].0);
        }
    }
}

/// The pages as sequences hold a key exactly if the pages as arrays do.
proof fn views_has_key(entries: Seq<(u64, [u8; 512])>, key: u64)
    ensures
        has_key(page_views(entries), key) == has_key(entries, key),
{
    let views = page_views(entries);
    if has_key(entries, key) {
        let i = position(entries, key);
        assert(views[i].0 == key);
    }
    if has_key(views, key) {
        let i = position(views, key);
        assert(entries[i].0 == key);
    }
}

/// A key is found at the same place among the pages as sequences and as
/// arrays, and its page is the same bytes.
proof fn views_value(entries: Seq<(u64, [u8; 512])>, key: u64)
    requires
        distinct_keys(entries),
        has_key(entries, key),
    ensures
        has_key(page_views(entries), key),
        position(page_views(entries), key) == position(entries, key),
        value_of(page_views(entries), key) == value_of(entries, key)@,
{
    views_keys(entries);
    let i = position(entries, key);
    assert(page_views(entries)[i].0 == key);
    entry_place(page_views(entries), i);
}

/// Using a key does the same to the pages as sequences and as arrays.
proof fn views_touch(entries: Seq<(u64, [u8; 512])>, key: u64)
    requires
        distinct_keys(entries),
    ensures
        page_views(touch(entries, key)) == touch(page_views(entries), key),
{
    views_has_key(entries, key);
    if has_key(entries, key) {
        views_value(entries, key);
    }
    assert(page_views(touch(entries, key)) =~= touch(page_views(entries), key));
}

/// Using keys in turn does the same to the pages as sequences and as
/// arrays.
proof fn views_touch_all(entries: Seq<(u64, [u8; 512])>, keys: Seq<u64>)
    requires
        distinct_keys(entries),
    ensures
        page_views(touch_all(entries, keys)) == touch_all(page_views(entries), keys),
    decreases keys.len(),
{
    if keys.len() > 0 {
        views_touch_all(entries, keys.drop_last());
        touch_all_keeps(entries, keys.drop_last(), 0);
        views_touch(touch_all(entries, keys.drop_last()), keys.last());
    }
}

/// Storing a page does the same to the pages as sequences and as arrays.
proof fn views_put(entries: Seq<(u64, [u8; 512])>, capacity: nat, key: u64, page: [u8; 512])
    requires
        distinct_keys(entries),
    ensures
        page_views(put(entries, capacity, key, page)) == put(
            page_views(entries),
            capacity,
            key,
            page@,
        ),
{
    views_has_key(entries, key);
    if has_key(entries, key) {
        views_value(entries, key);
    }
    assert(page_views(put(entries, capacity, key, page)) =~= put(
        page_views(entries),
        capacity,
        key,
        page@,
    ));
}

/// Once a page is missing, no later page counts as found.
proof fn hits_stop(entries: Seq<(u64, Seq<u8>)>, block: u64, k: nat, n: nat)
    requires
        k < n,
        hits(entries, block, k) == k,
        !has_key(entries, (block + k) as u64),
    ensures
        hits(entries, block, n) == k,
    decreases n,
{
    if n > k + 1 {
        hits_stop(entries, block, k, (n - 1) as nat);
    }
}

} // verus!
