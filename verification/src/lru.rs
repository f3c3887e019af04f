//! A map from block numbers to values that holds a bounded number of
//! entries and, when full, gives up the entry that was used least recently.
//!
//! The entries live in a vector of slots that are chained into a list from
//! the least to the most recently used; a hash map finds the slot of a key.
//! Looking up, inserting and evicting each take a constant number of steps.

use std::collections::HashMap;
use vstd::prelude::*;

verus! {

/// Whether `key` has an entry in `entries`.
pub open spec fn has_key<V>(entries: Seq<(u64, V)>, key: u64) -> bool {
    exists|i: int| 0 <= i < entries.len() && (#[trigger] entries[i]).0 == key
}

/// The place of the entry of `key` in `entries`.
pub open spec fn position<V>(entries: Seq<(u64, V)>, key: u64) -> int {
    choose|i: int| 0 <= i < entries.len() && (#[trigger] entries[i]).0 == key
}

/// Whether no key has two entries.
pub open spec fn distinct_keys<V>(entries: Seq<(u64, V)>) -> bool {
    forall|i: int, j: int|
        0 <= i < j < entries.len() ==> (#[trigger] entries[i]).0 != (#[trigger] entries[j]).0
}

/// The entries after `key` was used: its entry, if it has one, moves to the
/// end, where the most recently used entry stands.
pub open spec fn touch<V>(entries: Seq<(u64, V)>, key: u64) -> Seq<(u64, V)> {
    if has_key(entries, key) {
        let at = position(entries, key);
        entries.remove(at).push(entries[at])
    } else {
        entries
    }
}

/// The entries after `value` was stored under `key` with room for
/// `capacity` entries: an entry of `key` is replaced and moves to the end;
/// a new entry is added at the end, after the first entry has left if
/// there was no room. With no room at all nothing is stored.
pub open spec fn put<V>(entries: Seq<(u64, V)>, capacity: nat, key: u64, value: V) -> Seq<
    (u64, V),
> {
    if has_key(entries, key) {
        entries.remove(position(entries, key)).push((key, value))
    } else if entries.len() < capacity {
        entries.push((key, value))
    } else if capacity == 0 {
        entries
    } else {
        entries.drop_first().push((key, value))
    }
}

/// The value stored under `key`, which has an entry.
pub open spec fn value_of<V>(entries: Seq<(u64, V)>, key: u64) -> V {
    entries[position(entries, key)].1
}

/// The entries after each of `keys` was used in turn.
pub open spec fn touch_all<V>(entries: Seq<(u64, V)>, keys: Seq<u64>) -> Seq<(u64, V)>
    decreases keys.len(),
{
    if keys.len() == 0 {
        entries
    } else {
        touch(touch_all(entries, keys.drop_last()), keys.last())
    }
}

/// The entries after each of `items` was stored in turn with room for
/// `capacity` entries.
pub open spec fn put_all<V>(entries: Seq<(u64, V)>, capacity: nat, items: Seq<(u64, V)>) -> Seq<
    (u64, V),
>
    decreases items.len(),
{
    if items.len() == 0 {
        entries
    } else {
        put(put_all(entries, capacity, items.drop_last()), capacity, items.last().0, items.last().1)
    }
}

/// Where no key has two entries, the key of entry `i` is found at `i`.
pub proof fn entry_place<V>(entries: Seq<(u64, V)>, i: int)
    requires
        distinct_keys(entries),
        0 <= i < entries.len(),
    ensures
        has_key(entries, entries[i].0),
        position(entries, entries[i].0) == i,
        value_of(entries, entries[i].0) == entries[i].1,
{
    let at = position(entries, entries[i].0);
    if at < i {
        assert(entries[at].0 != entries[i].0);
    } else if i < at {
        assert(entries[i].0 != entries[at].0);
    }
}

/// Moving the entry at `at` to the end with a new value keeps every key
/// and, but for the moved entry, every value.
proof fn moved<V>(entries: Seq<(u64, V)>, at: int, value: V, other: u64)
    requires
        distinct_keys(entries),
        0 <= at < entries.len(),
    ensures
        distinct_keys(entries.remove(at).push((entries[at].0, value))),
        has_key(entries.remove(at).push((entries[at].0, value)), other) == has_key(entries, other),
        has_key(entries, other) ==> value_of(entries.remove(at).push((entries[at].0, value)), other)
            == if other == entries[at].0 {
            value
        } else {
            value_of(entries, other)
        },
{
    let n = entries.len() as int;
    let after = entries.remove(at).push((entries[at].0, value));
    let back = |i: int|
        if i < at {
            i
        } else if i < n - 1 {
            i + 1
        } else {
            at
        };
    assert forall|i: int| 0 <= i < n implies (#[trigger] after[i]).0 == entries[back(i)].0 by {}
    assert forall|i: int, j: int| 0 <= i < j < n implies (#[trigger] after[i]).0 != (
    #[trigger] after[j]).0 by {
        assert(after[i].0 == entries[back(i)].0 && after[j].0 == entries[back(j)].0);
        if back(i) < back(j) {
            assert(entries[back(i)].0 != entries[back(j)].0);
        } else {
            assert(entries[back(j)].0 != entries[back(i)].0);
        }
    }
    if has_key(entries, other) {
        let i = position(entries, other);
        let to = if i < at {
            i
        } else if i == at {
            n - 1
        } else {
            i - 1
        };
        assert(after[to].0 == other);
        entry_place(after, to);
        entry_place(entries, i);
    } else if has_key(after, other) {
        let i = position(after, other);
        assert(entries[back(i)].0 == other);
    }
}

/// Using a key keeps the keys, their values and the number of entries.
pub proof fn touch_keeps<V>(entries: Seq<(u64, V)>, key: u64, other: u64)
    requires
        distinct_keys(entries),
    ensures
        distinct_keys(touch(entries, key)),
        touch(entries, key).len() == entries.len(),
        has_key(touch(entries, key), other) == has_key(entries, other),
        has_key(entries, other) ==> value_of(touch(entries, key), other) == value_of(entries, other),
{
    if has_key(entries, key) {
        let at = position(entries, key);
        moved(entries, at, entries[at].1, other);
        entry_place(entries, at);
    }
}

/// Using keys in turn keeps the keys, their values and the number of
/// entries.
pub proof fn touch_all_keeps<V>(entries: Seq<(u64, V)>, keys: Seq<u64>, other: u64)
    requires
        distinct_keys(entries),
    ensures
        distinct_keys(touch_all(entries, keys)),
        touch_all(entries, keys).len() == entries.len(),
        has_key(touch_all(entries, keys), other) == has_key(entries, other),
        has_key(entries, other) ==> value_of(touch_all(entries, keys), other) == value_of(
            entries,
            other,
        ),
    decreases keys.len(),
{
    if keys.len() > 0 {
        touch_all_keeps(entries, keys.drop_last(), other);
        touch_keeps(touch_all(entries, keys.drop_last()), keys.last(), other);
    }
}

/// Storing a value keeps the keys apart and the entries within the room
/// there is; where there is any room, the value is then found under its
/// key, at the end.
pub proof fn put_keeps<V>(entries: Seq<(u64, V)>, capacity: nat, key: u64, value: V)
    requires
        distinct_keys(entries),
        entries.len() <= capacity,
    ensures
        distinct_keys(put(entries, capacity, key, value)),
        put(entries, capacity, key, value).len() <= capacity,
        put(entries, capacity, key, value).len() >= entries.len(),
        capacity > 0 ==> put(entries, capacity, key, value).len() > 0 && put(
            entries,
            capacity,
            key,
            value,
        ).last() == (key, value),
{
    let after = put(entries, capacity, key, value);
    if has_key(entries, key) {
        moved(entries, position(entries, key), value, key);
    } else if capacity > 0 {
        let kept = if entries.len() < capacity {
            entries
        } else {
            entries.drop_first()
        };
        let shift = entries.len() - kept.len();
        assert(after == kept.push((key, value)));
        assert forall|i: int, j: int| 0 <= i < j < after.len() implies (#[trigger] after[i]).0 != (
        #[trigger] after[j]).0 by {
            assert(after[i] == entries[i + shift]);
            if j < kept.len() {
                assert(after[j] == entries[j + shift]);
            } else {
                assert(entries[i + shift].0 != key);
            }
        }
    }
}

/// After items with different keys were stored, no more of them than
/// there is room for, the entries end with exactly these items, in the
/// order in which they were stored.
pub proof fn put_all_tail<V>(entries: Seq<(u64, V)>, capacity: nat, items: Seq<(u64, V)>)
    requires
        distinct_keys(entries),
        entries.len() <= capacity,
        distinct_keys(items),
        items.len() <= capacity,
    ensures
        distinct_keys(put_all(entries, capacity, items)),
        put_all(entries, capacity, items).len() <= capacity,
        put_all(entries, capacity, items).len() >= items.len(),
        put_all(entries, capacity, items).len() >= entries.len(),
        put_all(entries, capacity, items).subrange(
            put_all(entries, capacity, items).len() - items.len(),
            put_all(entries, capacity, items).len() as int,
        ) == items,
    decreases items.len(),
{
    let after = put_all(entries, capacity, items);
    if items.len() == 0 {
        assert(after.subrange(after.len() - items.len(), after.len() as int) =~= items);
    } else {
        let m = items.len() - 1;
        let first = items.drop_last();
        let (key, value) = items.last();
        let mid = put_all(entries, capacity, first);
        put_all_tail(entries, capacity, first);
        put_keeps(mid, capacity, key, value);
        let base = mid.len() - m;
        assert forall|i: int| 0 <= i < m implies (#[trigger] mid[base + i]) == items[i] by {
            assert(mid.subrange(base, mid.len() as int)[i] == first[i]);
        }
        if has_key(mid, key) {
            let at = position(mid, key);
            if at >= base {
                assert(mid[base + (at - base)] == items[at - base]);
                assert(items[at - base].0 != items[m].0);
            }
            assert(0 <= at < base);
        }
        let tail = after.subrange(after.len() - items.len(), after.len() as int);
        assert forall|i: int| 0 <= i < items.len() implies #[trigger] tail[i] == items[i] by {
            if i < m {
                assert(mid[base + i] == items[i]);
            }
        }
        assert(tail =~= items);
    }
}

/// Storing one more item than there is room for, all under different keys
/// and starting with nothing, leaves every item but the first: the least
/// recently used entry is the one that leaves.
pub proof fn put_all_evicts_first<V>(capacity: nat, items: Seq<(u64, V)>)
    requires
        distinct_keys(items),
        items.len() == capacity + 1,
    ensures
        put_all(Seq::<(u64, V)>::empty(), capacity, items) == items.drop_first(),
        !has_key(put_all(Seq::<(u64, V)>::empty(), capacity, items), items[0].0),
        forall|i: int|
            1 <= i < items.len() ==> has_key(
                put_all(Seq::<(u64, V)>::empty(), capacity, items),
                (#[trigger] items[i]).0,
            ),
{
    let empty = Seq::<(u64, V)>::empty();
    let first = items.drop_last();
    let (key, value) = items.last();
    let mid = put_all(empty, capacity, first);
    let after = put_all(empty, capacity, items);
    put_all_tail(empty, capacity, first);
    assert(mid =~= mid.subrange(mid.len() - first.len(), mid.len() as int));
    assert(mid == first);
    if has_key(mid, key) {
        let at = position(mid, key);
        assert(items[at].0 != items[capacity as int].0);
    }
    assert(after =~= items.drop_first());
    if has_key(after, items[0].0) {
        let at = position(after, items[0].0);
        assert(items[0].0 != items[at + 1].0);
    }
    assert forall|i: int| 1 <= i < items.len() implies has_key(after, (#[trigger] items[i]).0) by {
        assert(after[i - 1].0 == items[i].0);
    }
}

/// An entry and its neighbours in the chain.
struct Slot<V> {
    key: u64,
    value: V,
    prev: usize,
    next: usize,
}

/// Whether `order` lists every slot once, `pos` gives the place of each
/// slot in it, and the slots are chained in that order from `head` to
/// `tail`.
spec fn chained<V>(
    slots: Seq<Slot<V>>,
    order: Seq<usize>,
    pos: Seq<int>,
    head: usize,
    tail: usize,
) -> bool {
    let n = slots.len() as int;
    &&& order.len() == n
    &&& pos.len() == n
    &&& forall|p: int| 0 <= p < n ==> 0 <= #[trigger] order[p] < n && pos[order[p] as int] == p
    &&& forall|s: int| 0 <= s < n ==> 0 <= #[trigger] pos[s] < n && order[pos[s]] == s
    &&& forall|s: int|
        0 <= s < n && pos[s] < n - 1 ==> (#[trigger] slots[s]).next == order[pos[s] + 1]
    &&& forall|s: int| 0 <= s < n && 0 < pos[s] ==> (#[trigger] slots[s]).prev == order[pos[s] - 1]
    &&& n > 0 ==> head == order[0] && tail == order[n - 1]
}

/// Whether `index` maps exactly the keys of the slots, each to its slot.
spec fn indexed<V>(slots: Seq<Slot<V>>, index: Map<u64, usize>) -> bool {
    &&& forall|s: int|
        0 <= s < slots.len() ==> index.contains_key((#[trigger] slots[s]).key) && index[slots[s].key]
            == s
    &&& forall|k: u64| #[trigger]
        index.contains_key(k) ==> index[k] < slots.len() && slots[index[k] as int].key == k
}

/// The entries of the slots in the order of the chain.
spec fn entries_of<V>(slots: Seq<Slot<V>>, order: Seq<usize>) -> Seq<(u64, V)> {
    Seq::new(order.len(), |p: int| (slots[order[p] as int].key, slots[order[p] as int].value))
}

/// A bounded map from block numbers to values with least-recently-used
/// eviction. Its view lists the entries from the least to the most recently
/// used.
pub struct LruCache<V> {
    capacity: usize,
    index: HashMap<u64, usize>,
    slots: Vec<Slot<V>>,
    head: usize,
    tail: usize,
    order: Ghost<Seq<usize>>,
    pos: Ghost<Seq<int>>,
}

impl<V> View for LruCache<V> {
    type V = Seq<(u64, V)>;

    /// The entries from the least to the most recently used.
    closed spec fn view(&self) -> Seq<(u64, V)> {
        entries_of(self.slots@, self.order@)
    }
}

impl<V> LruCache<V> {
    /// The number of entries that the cache has room for.
    pub closed spec fn spec_capacity(&self) -> nat {
        self.capacity as nat
    }

    /// Whether the slots are chained in the order of use.
    spec fn links(&self) -> bool {
        chained(self.slots@, self.order@, self.pos@, self.head, self.tail)
    }

    /// Whether the cache is in order inside. Every cache that this module
    /// hands out is, and then no key has two entries and there are no more
    /// entries than the cache has room for.
    pub closed spec fn wf(&self) -> bool {
        &&& self.links()
        &&& indexed(self.slots@, self.index@)
        &&& self.slots@.len() <= self.capacity
    }

    /// What well-formedness says of the entries.
    pub proof fn wf_entries(&self)
        requires
            self.wf(),
        ensures
            distinct_keys(self@),
            self@.len() <= self.spec_capacity(),
    {
        let entries = self@;
        assert forall|i: int, j: int| 0 <= i < j < entries.len() implies (#[trigger] entries[i]).0
            != (#[trigger] entries[j]).0 by {
            let a = self.order@[i] as int;
            let b = self.order@[j] as int;
            assert(self.pos@[a] == i && self.pos@[b] == j);
            assert(self.index@[self.slots@[a].key] == a);
            assert(self.index@[self.slots@[b].key] == b);
        }
    }

    /// In a well-formed cache the key has an entry exactly if the index
    /// knows it, and then the entry stands at the place of its slot.
    proof fn key_place(&self, key: u64)
        requires
            self.links(),
            indexed(self.slots@, self.index@),
        ensures
            has_key(self@, key) == self.index@.contains_key(key),
            self.index@.contains_key(key) ==> {
                let at = self.pos@[self.index@[key] as int];
                &&& position(self@, key) == at
                &&& 0 <= at < self@.len()
                &&& self@[at] == (key, self.slots@[self.index@[key] as int].value)
            },
    {
        let entries = self@;
        if self.index@.contains_key(key) {
            let s = self.index@[key] as int;
            let at = self.pos@[s];
            assert(self.order@[at] == s);
            assert(entries[at].0 == key);
            assert forall|q: int| 0 <= q < entries.len() && (#[trigger] entries[q]).0
                == key implies q == at by {
                let t = self.order@[q] as int;
                assert(self.slots@[t].key == key);
                assert(self.index@[self.slots@[t].key] == t);
                assert(self.pos@[t] == q);
            }
        } else {
            if has_key(entries, key) {
                let q = position(entries, key);
                let t = self.order@[q] as int;
                assert(self.index@.contains_key(self.slots@[t].key));
            }
        }
    }

    /// An empty cache with room for `capacity` entries.
    pub fn new(capacity: usize) -> (r: Self)
        ensures
            r.wf(),
            r@ == Seq::<(u64, V)>::empty(),
            r.spec_capacity() == capacity,
    {
        let r = LruCache {
            capacity,
            index: HashMap::new(),
            slots: Vec::new(),
            head: 0,
            tail: 0,
            order: Ghost(Seq::empty()),
            pos: Ghost(Seq::empty()),
        };
        assert(r@ =~= Seq::<(u64, V)>::empty());
        r
    }

    /// The number of entries that the cache has room for.
    pub fn capacity(&self) -> (r: usize)
        ensures
            r == self.spec_capacity(),
    {
        self.capacity
    }

    /// The number of entries.
    pub fn len(&self) -> (r: usize)
        requires
            self.wf(),
        ensures
            r == self@.len(),
    {
        self.slots.len()
    }

    /// Whether `key` has an entry. This does not count as a use.
    pub fn contains_key(&self, key: u64) -> (r: bool)
        requires
            self.wf(),
        ensures
            r == has_key(self@, key),
    {
        proof {
            self.key_place(key);
        }
        self.index.contains_key(&key)
    }

    /// Moves slot `slot` to the end of the chain.
    fn move_to_back(&mut self, slot: usize)
        requires
            old(self).links(),
            slot < old(self).slots@.len(),
        ensures
            final(self).links(),
            final(self).capacity == old(self).capacity,
            final(self).index == old(self).index,
            final(self).slots@.len() == old(self).slots@.len(),
            forall|s: int|
                0 <= s < old(self).slots@.len() ==> (#[trigger] final(self).slots@[s]).key == old(
                    self,
                ).slots@[s].key && final(self).slots@[s].value == old(self).slots@[s].value,
            final(self).order@ == old(self).order@.remove(old(self).pos@[slot as int]).push(slot),
            final(self).pos@[slot as int] == old(self).slots@.len() - 1,
            final(self)@ == old(self)@.remove(old(self).pos@[slot as int]).push(
                old(self)@[old(self).pos@[slot as int]],
            ),
    {
        let ghost n = self.slots@.len() as int;
        let ghost at = self.pos@[slot as int];
        let ghost order = self.order@;
        let ghost pos = self.pos@;
        let ghost slots = self.slots@;
        assert(order[at] == slot);
        if slot == self.tail {
            assert(at == n - 1) by {
                assert(pos[order[n - 1] as int] == n - 1);
            }
            assert(order.remove(at).push(slot) =~= order);
            assert(self@.remove(at).push(self@[at]) =~= self@);
            return ;
        }
        assert(at < n - 1) by {
            if at == n - 1 {
                assert(order[n - 1] == self.tail);
            }
        }
        let prev = self.slots[slot].prev;
        let next = self.slots[slot].next;
        assert(next == order[at + 1]);
        if slot == self.head {
            assert(at == 0) by {
                assert(pos[order[0] as int] == 0);
            }
            self.head = next;
        } else {
            assert(at > 0) by {
                if at == 0 {
                    assert(order[0] == self.head);
                }
            }
            assert(prev == order[at - 1]);
            self.slots[prev].next = next;
        }
        self.slots[next].prev = prev;
        let tail = self.tail;
        self.slots[tail].next = slot;
        self.slots[slot].prev = tail;
        self.tail = slot;
        let ghost new_order = order.remove(at).push(slot);
        let ghost new_pos = Seq::new(
            n as nat,
            |s: int|
                if s == slot {
                    n - 1
                } else if pos[s] > at {
                    pos[s] - 1
                } else {
                    pos[s]
                },
        );
        self.order = Ghost(new_order);
        self.pos = Ghost(new_pos);
        proof {
            assert forall|p: int| 0 <= p < n implies 0 <= #[trigger] new_order[p] < n
                && new_pos[new_order[p] as int] == p by {
                if p < at {
                    assert(new_order[p] == order[p]);
                } else if p < n - 1 {
                    assert(new_order[p] == order[p + 1]);
                    assert(pos[order[p + 1] as int] == p + 1);
                }
            }
            assert forall|s: int| 0 <= s < n implies 0 <= #[trigger] new_pos[s] < n
                && new_order[new_pos[s]] == s by {
                assert(order[pos[s]] == s);
                if s != slot {
                    assert(pos[s] != at);
                }
            }
            assert forall|s: int| 0 <= s < n && new_pos[s] < n - 1 implies (
            #[trigger] self.slots@[s]).next == new_order[new_pos[s] + 1] by {
                assert(order[pos[s]] == s);
                assert(s != slot);
                if pos[s] == n - 1 {
                    assert(s == tail);
                } else if pos[s] == at - 1 {
                    assert(s == prev);
                    assert(new_order[new_pos[s] + 1] == order[at + 1]);
                } else {
                    assert(slots[s].next == order[pos[s] + 1]);
                    if pos[s] < at {
                        assert(new_order[pos[s] + 1] == order[pos[s] + 1]);
                    } else {
                        assert(new_order[pos[s]] == order[pos[s] + 1]);
                    }
                }
            }
            assert forall|s: int| 0 <= s < n && 0 < new_pos[s] implies (
            #[trigger] self.slots@[s]).prev == new_order[new_pos[s] - 1] by {
                assert(order[pos[s]] == s);
                if s == slot {
                    assert(new_order[n - 2] == order[n - 1]);
                } else if pos[s] == at + 1 {
                    assert(s == next);
                    assert(new_order[at - 1] == order[at - 1]);
                } else {
                    assert(slots[s].prev == order[pos[s] - 1]);
                    if pos[s] < at {
                        assert(new_order[pos[s] - 1] == order[pos[s] - 1]);
                    } else {
                        assert(new_order[pos[s] - 2] == order[pos[s] - 1]);
                    }
                }
            }
            assert(self.head == new_order[0]) by {
                if at == 0 {
                    assert(new_order[0] == order[1]);
                } else {
                    assert(new_order[0] == order[0]);
                }
            }
            assert(self@ =~= old(self)@.remove(at).push(old(self)@[at])) by {
                assert forall|p: int| 0 <= p < n implies #[trigger] self@[p] == old(self)@.remove(
                    at,
                ).push(old(self)@[at])[p] by {
                    let s = new_order[p] as int;
                    assert(self.slots@[s].key == slots[s].key);
                    assert(self.slots@[s].value == slots[s].value);
                }
            }
        }
    }

    /// The value stored under `key`, if there is one. Finding it counts as
    /// a use: the entry becomes the most recently used, and what is written
    /// through the reference becomes its value.
    pub fn get_mut(&mut self, key: u64) -> (r: Option<&mut V>)
        requires
            old(self).wf(),
        ensures
            final(self).wf(),
            final(self).spec_capacity() == old(self).spec_capacity(),
            r.is_some() == has_key(old(self)@, key),
            match r {
                Some(value) => {
                    let at = position(old(self)@, key);
                    &&& *value == old(self)@[at].1
                    &&& final(self)@ == old(self)@.remove(at).push((key, *final(value)))
                },
                None => final(self)@ == old(self)@,
            },
    {
        proof {
            self.key_place(key);
        }
        let slot = match self.index.get(&key) {
            Some(slot) => *slot,
            None => {
                return None;
            },
        };
        self.move_to_back(slot);
        proof {
            let mid = *self;
            let at = position(old(self)@, key);
            let entry = mid.slots@[slot as int];
            assert forall|x: Slot<V>|
                x.key == entry.key && x.prev == entry.prev && x.next == entry.next implies {
                let changed = #[trigger] mid.slots@.update(slot as int, x);
                &&& chained(changed, mid.order@, mid.pos@, mid.head, mid.tail)
                &&& indexed(changed, mid.index@)
                &&& entries_of(changed, mid.order@) == old(self)@.remove(at).push((key, x.value))
            } by {
                let changed = mid.slots@.update(slot as int, x);
                assert(entries_of(changed, mid.order@) =~= old(self)@.remove(at).push(
                    (key, x.value),
                ));
            }
        }
        let value = &mut self.slots[slot].value;
        Some(value)
    }

    /// Stores `value` under `key` as the most recently used entry and
    /// returns the value that `key` had before, if it had one. Where the key
    /// is new and the cache is full, the least recently used entry leaves.
    /// A cache with no room stores nothing.
    pub fn insert(&mut self, key: u64, value: V) -> (r: Option<V>)
        requires
            old(self).wf(),
        ensures
            final(self).wf(),
            final(self).spec_capacity() == old(self).spec_capacity(),
            final(self)@ == put(old(self)@, old(self).spec_capacity(), key, value),
            r == if has_key(old(self)@, key) {
                Some(old(self)@[position(old(self)@, key)].1)
            } else {
                None
            },
    {
        proof {
            self.key_place(key);
        }
        let found = match self.index.get(&key) {
            Some(slot) => Some(*slot),
            None => None,
        };
        let ghost entries = self@;
        match found {
            Some(slot) => {
                let ghost at = position(entries, key);
                self.move_to_back(slot);
                let mut value = value;
                proof {
                    let mid = *self;
                    let entry = mid.slots@[slot as int];
                    assert forall|x: Slot<V>|
                        x.key == entry.key && x.prev == entry.prev && x.next
                            == entry.next implies {
                        let changed = #[trigger] mid.slots@.update(slot as int, x);
                        &&& chained(changed, mid.order@, mid.pos@, mid.head, mid.tail)
                        &&& indexed(changed, mid.index@)
                        &&& entries_of(changed, mid.order@) == entries.remove(at).push(
                            (key, x.value),
                        )
                    } by {
                        let changed = mid.slots@.update(slot as int, x);
                        assert(entries_of(changed, mid.order@) =~= entries.remove(at).push(
                            (key, x.value),
                        ));
                    }
                }
                core::mem::swap(&mut self.slots[slot].value, &mut value);
                Some(value)
            },
            None => {
                let n = self.slots.len();
                let ghost order = self.order@;
                let ghost pos = self.pos@;
                let ghost slots = self.slots@;
                let ghost index = self.index@;
                if self.capacity == 0 {
                } else if n < self.capacity {
                    let tail = self.tail;
                    self.slots.push(Slot { key, value, prev: tail, next: 0 });
                    if n > 0 {
                        self.slots[tail].next = n;
                    } else {
                        self.head = n;
                    }
                    self.tail = n;
                    self.index.insert(key, n);
                    self.order = Ghost(order.push(n));
                    self.pos = Ghost(pos.push(n as int));
                    proof {
                        assert forall|s: int| 0 <= s < n implies (#[trigger] self.slots@[s]).key
                            == slots[s].key && self.slots@[s].value == slots[s].value
                            && self.slots@[s].prev == slots[s].prev by {}
                        assert forall|s: int| 0 <= s <= n && self.pos@[s] < n implies (
                        #[trigger] self.slots@[s]).next == self.order@[self.pos@[s] + 1] by {
                            assert(order[pos[s]] == s);
                            if pos[s] == n - 1 {
                                assert(s == tail);
                            } else {
                                assert(slots[s].next == order[pos[s] + 1]);
                            }
                        }
                        assert forall|s: int| 0 <= s <= n && 0 < self.pos@[s] implies (
                        #[trigger] self.slots@[s]).prev == self.order@[self.pos@[s] - 1] by {
                            if s < n {
                                assert(slots[s].prev == order[pos[s] - 1]);
                            }
                        }
                        assert(self.links());
                        assert forall|s: int| 0 <= s <= n implies self.index@.contains_key(
                            (#[trigger] self.slots@[s]).key,
                        ) && self.index@[self.slots@[s].key] == s by {
                            if s < n {
                                assert(index.contains_key(slots[s].key));
                            }
                        }
                        assert(indexed(self.slots@, self.index@));
                        assert(self@ =~= entries.push((key, value)));
                    }
                } else {
                    let victim = self.head;
                    assert(victim == order[0] && pos[victim as int] == 0);
                    let old_key = self.slots[victim].key;
                    self.index.remove(&old_key);
                    self.move_to_back(victim);
                    let ghost mid_slots = self.slots@;
                    self.slots[victim].key = key;
                    self.slots[victim].value = value;
                    self.index.insert(key, victim);
                    proof {
                        assert forall|s: int| 0 <= s < n && s != victim implies (
                        #[trigger] self.slots@[s]) == mid_slots[s] by {}
                        assert(self.links());
                        assert forall|s: int| 0 <= s < n implies self.index@.contains_key(
                            (#[trigger] self.slots@[s]).key,
                        ) && self.index@[self.slots@[s].key] == s by {
                            if s != victim {
                                assert(mid_slots[s].key == slots[s].key);
                                assert(index.contains_key(slots[s].key) && index[slots[s].key]
                                    == s);
                                assert(index[slots[victim as int].key] == victim);
                            }
                        }
                        assert forall|k: u64| #[trigger]
                            self.index@.contains_key(k) implies self.index@[k] < n
                            && self.slots@[self.index@[k] as int].key == k by {
                            if k != key {
                                assert(index.contains_key(k));
                                let t = index[k] as int;
                                assert(slots[t].key == k);
                                assert(mid_slots[t].key == slots[t].key);
                            }
                        }
                        assert(self@ =~= entries.drop_first().push((key, value))) by {
                            assert forall|p: int| 0 <= p < n implies #[trigger] self@[p]
                                == entries.drop_first().push((key, value))[p] by {
                                if p < n - 1 {
                                    let t = self.order@[p] as int;
                                    assert(t == order[p + 1]);
                                    assert(pos[order[p + 1] as int] == p + 1);
                                    assert(mid_slots[t].key == slots[t].key);
                                    assert(mid_slots[t].value == slots[t].value);
                                }
                            }
                        }
                    }
                }
                None
            },
        }
    }
}

} // verus!
