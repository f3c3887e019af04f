//! The chain of nodes that holds the extents of one file: the node's own
//! table first, then the overflow nodes, each linked to the one before and
//! the one after it.
//!
//! The chain is kept in memory with the block of each node. Blocks come
//! from the caller, who asks the allocator, and blocks that the chain gives
//! up are handed back to the caller.

use crate::ex_node::{total_length, total_length_of_one, total_length_of_unused, ExNode};
use crate::extent::Extent;
use vstd::prelude::*;

verus! {

/// Why a chain was left as it was.
#[derive(Clone, Copy, Debug, PartialEq, Eq, Structural)]
pub enum ChainError {
    /// A node was needed and no block was given for it.
    NoSpace,
    /// The block given for a new node is 0 or holds a node of the chain.
    BlockInUse,
    /// The chain has no such node, or a node has no such slot.
    NoSuchSlot,
    /// An extent of length 0 stands for an unused slot and cannot be added.
    ZeroLength,
}

/// Where an extent was put.
#[derive(Clone, Copy, Debug, PartialEq, Eq, Structural)]
pub struct Placed {
    /// The place of the node in the chain, 0 for the first.
    pub node: usize,
    /// The slot in the node.
    pub slot: usize,
    /// Whether the node is new and stands in the block that was given.
    pub allocated: bool,
}

/// Whether the nodes form a chain: there is a first node, every node has a
/// block of its own that is not 0, each node names the next as its `next`
/// and is named by it as its `prev`, and nothing comes before the first or
/// after the last.
pub open spec fn linked(nodes: Seq<(u64, ExNode)>) -> bool {
    &&& nodes.len() >= 1
    &&& forall|i: int| 0 <= i < nodes.len() ==> (#[trigger] nodes[i]).0 != 0
    &&& forall|i: int, j: int|
        0 <= i < j < nodes.len() ==> (#[trigger] nodes[i]).0 != (#[trigger] nodes[j]).0
    &&& nodes[0].1.prev == 0
    &&& nodes.last().1.next == 0
    &&& forall|i: int, j: int|
        0 <= i && j == i + 1 && j < nodes.len() ==> (#[trigger] nodes[i]).1.next == (
        #[trigger] nodes[j]).0 && nodes[j].1.prev == nodes[i].0
}

/// The sum of the lengths of all extents of the nodes.
pub open spec fn chain_size(nodes: Seq<(u64, ExNode)>) -> nat
    decreases nodes.len(),
{
    if nodes.len() == 0 {
        0
    } else {
        chain_size(nodes.drop_last()) + nodes.last().1.spec_size()
    }
}

/// Whether `slot` is the first unused slot of `node`.
pub open spec fn first_free(node: ExNode, slot: int) -> bool {
    &&& 0 <= slot < 31
    &&& node.extents[slot].length == 0
    &&& forall|j: int| 0 <= j < slot ==> (#[trigger] node.extents[j]).length != 0
}

/// Whether every slot of `node` is in use.
pub open spec fn full(node: ExNode) -> bool {
    forall|j: int| 0 <= j < 31 ==> (#[trigger] node.extents[j]).length != 0
}

/// Whether no slot of `node` is in use.
pub open spec fn unused(node: ExNode) -> bool {
    forall|j: int| 0 <= j < 31 ==> (#[trigger] node.extents[j]).length == 0
}

/// Whether `after` is `before` with `extent` in slot `slot`.
pub open spec fn with_extent(before: ExNode, after: ExNode, slot: int, extent: Extent) -> bool {
    &&& after.prev == before.prev
    &&& after.next == before.next
    &&& after.extents@ == before.extents@.update(slot, extent)
}

/// Whether a chain holds a node in block `block`.
pub open spec fn holds_block(nodes: Seq<(u64, ExNode)>, block: u64) -> bool {
    exists|i: int| 0 <= i < nodes.len() && (#[trigger] nodes[i]).0 == block
}

/// Whether an extent that is added to the chain needs a new node: the
/// first node is full, and so is the last.
pub open spec fn needs_node(nodes: Seq<(u64, ExNode)>) -> bool {
    full(nodes[0].1) && full(nodes.last().1)
}

/// The place of the node that takes an added extent without a new node:
/// the first node while it has room, else the last.
pub open spec fn node_with_room(nodes: Seq<(u64, ExNode)>) -> int {
    if !full(nodes[0].1) {
        0
    } else {
        nodes.len() - 1
    }
}

/// The extents of a file as a chain of nodes with their blocks. The view
/// lists the nodes with their blocks from the first on.
pub struct ExChain {
    nodes: Vec<(u64, ExNode)>,
}

impl View for ExChain {
    type V = Seq<(u64, ExNode)>;

    /// The nodes with their blocks, from the first on.
    closed spec fn view(&self) -> Seq<(u64, ExNode)> {
        self.nodes@
    }
}

impl ExChain {
    /// Whether the nodes form a chain, as they do in every chain that this
    /// module hands out.
    pub open spec fn wf(&self) -> bool {
        linked(self@)
    }

    /// The sum of the lengths of all extents of the chain.
    pub open spec fn spec_size(&self) -> nat {
        chain_size(self@)
    }

    /// The chain of the nodes given with their blocks, or `None` where they
    /// do not form a chain.
    pub fn from_nodes(nodes: Vec<(u64, ExNode)>) -> (r: Option<ExChain>)
        ensures
            r.is_some() == linked(nodes@),
            r matches Some(chain) ==> chain@ == nodes@,
    {
        let n = nodes.len();
        if n == 0 {
            return None;
        }
        if nodes[0].1.prev != 0 || nodes[n - 1].1.next != 0 {
            return None;
        }
        let mut i: usize = 0;
        while i < n
            invariant
                i <= n,
                n == nodes@.len(),
                forall|a: int| 0 <= a < i ==> (#[trigger] nodes@[a]).0 != 0,
                forall|a: int, b: int|
                    0 <= a < b < n && a < i ==> (#[trigger] nodes@[a]).0 != (#[trigger] nodes@[b]).0,
                forall|a: int, b: int|
                    0 <= a < i && b == a + 1 && b < n ==> (#[trigger] nodes@[a]).1.next == (
                    #[trigger] nodes@[b]).0 && nodes@[b].1.prev == nodes@[a].0,
            decreases n - i,
        {
            let block = nodes[i].0;
            if block == 0 {
                return None;
            }
            if i + 1 < n {
                if nodes[i].1.next != nodes[i + 1].0 || nodes[i + 1].1.prev != block {
                    return None;
                }
            }
            let mut j: usize = i + 1;
            while j < n
                invariant
                    i < j <= n,
                    n == nodes@.len(),
                    block == nodes@[i as int].0,
                    forall|b: int| i < b < j ==> block != (#[trigger] nodes@[b]).0,
                decreases n - j,
            {
                if nodes[j].0 == block {
                    return None;
                }
                j += 1;
            }
            i += 1;
        }
        Some(ExChain { nodes })
    }

    /// The chain of one node, or `None` where the block is 0 or the node
    /// names a neighbour.
    pub fn new(block: u64, head: ExNode) -> (r: Option<ExChain>)
        ensures
            r.is_some() == (block != 0 && head.prev == 0 && head.next == 0),
            r matches Some(chain) ==> chain.wf() && chain@ == seq![(block, head)]
                && chain.spec_size() == head.spec_size(),
    {
        if block == 0 || head.prev != 0 || head.next != 0 {
            return None;
        }
        let mut nodes: Vec<(u64, ExNode)> = Vec::new();
        nodes.push((block, head));
        proof {
            assert(nodes@ =~= seq![(block, head)]);
            assert(nodes@.drop_last() =~= Seq::<(u64, ExNode)>::empty());
            reveal_with_fuel(chain_size, 2);
        }
        Some(ExChain { nodes })
    }

    /// The number of nodes.
    pub fn len(&self) -> (r: usize)
        ensures
            r == self@.len(),
    {
        self.nodes.len()
    }

    /// The nodes with their blocks, from the first on.
    pub fn nodes(&self) -> (r: &Vec<(u64, ExNode)>)
        ensures
            r@ == self@,
    {
        &self.nodes
    }

    /// The block of node `i`.
    pub fn block(&self, i: usize) -> (r: Option<u64>)
        ensures
            r == if i < self@.len() {
                Some(self@[i as int].0)
            } else {
                None
            },
    {
        if i < self.nodes.len() {
            Some(self.nodes[i].0)
        } else {
            None
        }
    }

    /// Node `i`.
    pub fn node(&self, i: usize) -> (r: Option<ExNode>)
        ensures
            r == if i < self@.len() {
                Some(self@[i as int].1)
            } else {
                None
            },
    {
        if i < self.nodes.len() {
            Some(self.nodes[i].1)
        } else {
            None
        }
    }

    /// The sum of the lengths of all extents of the chain, found by going
    /// through the nodes, or `None` where it does not fit in 64 bits.
    pub fn checked_size(&self) -> (r: Option<u64>)
        ensures
            r == if self.spec_size() <= u64::MAX {
                Some(self.spec_size() as u64)
            } else {
                None
            },
    {
        let mut size: u64 = 0;
        let mut i: usize = 0;
        let n = self.nodes.len();
        while i < n
            invariant
                i <= n,
                n == self.nodes@.len(),
                size == chain_size(self.nodes@.subrange(0, i as int)),
            decreases n - i,
        {
            proof {
                assert(self.nodes@.subrange(0, i + 1).drop_last() =~= self.nodes@.subrange(
                    0,
                    i as int,
                ));
                chain_size_grows(self.nodes@, i + 1, n as int);
            }
            let part = match self.nodes[i].1.checked_size() {
                Some(part) => part,
                None => {
                    proof {
                        assert(self.nodes@.subrange(0, n as int) =~= self.nodes@);
                    }
                    return None;
                },
            };
            match size.checked_add(part) {
                Some(sum) => {
                    size = sum;
                },
                None => {
                    proof {
                        assert(self.nodes@.subrange(0, n as int) =~= self.nodes@);
                    }
                    return None;
                },
            }
            i += 1;
        }
        proof {
            assert(self.nodes@.subrange(0, n as int) =~= self.nodes@);
        }
        Some(size)
    }

    /// The sum of the lengths of all extents of the chain, found by going
    /// through the nodes.
    pub fn size(&self) -> (r: u64)
        requires
            self.spec_size() <= u64::MAX,
        ensures
            r == self.spec_size(),
    {
        match self.checked_size() {
            Some(size) => size,
            None => 0,
        }
    }

    /// Whether an extent that is added needs a new node.
    pub fn needs_node(&self) -> (r: bool)
        requires
            self.wf(),
        ensures
            r == needs_node(self@),
    {
        let n = self.nodes.len();
        free_slot(&self.nodes[0].1).is_none() && free_slot(&self.nodes[n - 1].1).is_none()
    }

    /// Adds `extent` in the first unused slot of the first node or, where
    /// that node is full, of the last. Where both are full, a new node in
    /// block `fresh` is linked behind the last and takes the extent in its
    /// first slot. An error leaves the chain as it was.
    pub fn append_extent(&mut self, extent: Extent, fresh: Option<u64>) -> (r: Result<
        Placed,
        ChainError,
    >)
        requires
            old(self).wf(),
        ensures
            final(self).wf(),
            r is Err ==> final(self)@ == old(self)@,
            r is Ok ==> final(self).spec_size() == old(self).spec_size() + extent.length,
            extent.length == 0 ==> r == Err::<Placed, ChainError>(ChainError::ZeroLength),
            extent.length != 0 && !needs_node(old(self)@) ==> {
                let at = node_with_room(old(self)@);
                &&& r matches Ok(placed)
                &&& placed.node == at
                &&& !placed.allocated
                &&& first_free(old(self)@[at].1, placed.slot as int)
                &&& final(self)@.len() == old(self)@.len()
                &&& final(self)@[at].0 == old(self)@[at].0
                &&& with_extent(old(self)@[at].1, final(self)@[at].1, placed.slot as int, extent)
                &&& forall|i: int|
                    0 <= i < old(self)@.len() && i != at ==> final(self)@[i] == old(self)@[i]
            },
            extent.length != 0 && needs_node(old(self)@) ==> match fresh {
                None => r == Err::<Placed, ChainError>(ChainError::NoSpace),
                Some(block) => if block == 0 || holds_block(old(self)@, block) {
                    r == Err::<Placed, ChainError>(ChainError::BlockInUse)
                } else {
                    let n = old(self)@.len() as int;
                    &&& r == Ok::<Placed, ChainError>(
                        Placed { node: n as usize, slot: 0, allocated: true },
                    )
                    &&& final(self)@.len() == n + 1
                    &&& forall|i: int| 0 <= i < n - 1 ==> final(self)@[i] == old(self)@[i]
                    &&& final(self)@[n - 1].0 == old(self)@[n - 1].0
                    &&& final(self)@[n - 1].1.prev == old(self)@[n - 1].1.prev
                    &&& final(self)@[n - 1].1.extents == old(self)@[n - 1].1.extents
                    &&& final(self)@[n - 1].1.next == block
                    &&& final(self)@[n].0 == block
                    &&& final(self)@[n].1.prev == old(self)@[n - 1].0
                    &&& final(self)@[n].1.next == 0
                    &&& final(self)@[n].1.extents[0] == extent
                    &&& forall|j: int|
                        1 <= j < 31 ==> (#[trigger] final(self)@[n].1.extents[j]) == (Extent {
                            offset: 0,
                            length: 0,
                        })
                },
            },
    {
        if extent.length == 0 {
            return Err(ChainError::ZeroLength);
        }
        let n = self.nodes.len();
        let at = if free_slot(&self.nodes[0].1).is_some() {
            0
        } else {
            n - 1
        };
        match free_slot(&self.nodes[at].1) {
            Some(slot) => {
                self.place(at, slot, extent);
                Ok(Placed { node: at, slot, allocated: false })
            },
            None => {
                let block = match fresh {
                    Some(block) => block,
                    None => {
                        return Err(ChainError::NoSpace);
                    },
                };
                if block == 0 || self.holds(block) {
                    return Err(ChainError::BlockInUse);
                }
                self.link(block, extent);
                Ok(Placed { node: n, slot: 0, allocated: true })
            },
        }
    }

    /// Puts `extent` into slot `slot` of node `at`.
    fn place(&mut self, at: usize, slot: usize, extent: Extent)
        requires
            old(self).wf(),
            at < old(self)@.len(),
            slot < 31,
        ensures
            final(self).wf(),
            final(self).spec_size() == old(self).spec_size() - old(self)@[at as int].1.extents[slot as int].length
                + extent.length,
            final(self)@.len() == old(self)@.len(),
            final(self)@[at as int].0 == old(self)@[at as int].0,
            with_extent(old(self)@[at as int].1, final(self)@[at as int].1, slot as int, extent),
            forall|i: int|
                0 <= i < old(self)@.len() && i != at ==> final(self)@[i] == old(self)@[i],
    {
        let ghost before = self.nodes@;
        let (block, mut node) = self.nodes[at];
        node.extents[slot] = extent;
        self.nodes[at] = (block, node);
        proof {
            total_length_update(before[at as int].1.extents@, slot as int, extent);
            chain_size_update(before, at as int, (block, node));
            assert(self.nodes@ =~= before.update(at as int, (block, node)));
            relinked(before, self.nodes@);
        }
    }

    /// Links a new node in `block` behind the last node, with `extent` in its
    /// first slot.
    fn link(&mut self, block: u64, extent: Extent)
        requires
            old(self).wf(),
            block != 0,
            !holds_block(old(self)@, block),
        ensures
            final(self).wf(),
            final(self).spec_size() == old(self).spec_size() + extent.length,
            final(self)@.len() == old(self)@.len() + 1,
            forall|i: int| 0 <= i < old(self)@.len() - 1 ==> final(self)@[i] == old(self)@[i],
            final(self)@[old(self)@.len() - 1].0 == old(self)@.last().0,
            final(self)@[old(self)@.len() - 1].1.prev == old(self)@.last().1.prev,
            final(self)@[old(self)@.len() - 1].1.extents == old(self)@.last().1.extents,
            final(self)@[old(self)@.len() - 1].1.next == block,
            final(self)@.last().0 == block,
            final(self)@.last().1.prev == old(self)@.last().0,
            final(self)@.last().1.next == 0,
            final(self)@.last().1.extents[0] == extent,
            forall|j: int|
                1 <= j < 31 ==> (#[trigger] final(self)@.last().1.extents[j]) == (Extent {
                    offset: 0,
                    length: 0,
                }),
    {
        let n = self.nodes.len();
        let ghost before = self.nodes@;
        let (tail_block, mut tail) = self.nodes[n - 1];
        tail.next = block;
        let mut node = ExNode::default();
        node.prev = tail_block;
        node.extents[0] = extent;
        self.nodes[n - 1] = (tail_block, tail);
        self.nodes.push((block, node));
        proof {
            let after = self.nodes@;
            let mid = before.update(n - 1, (tail_block, tail));
            assert(after =~= mid.push((block, node)));
            assert(after.drop_last() =~= mid);
            chain_size_update(before, n - 1, (tail_block, tail));
            total_length_of_one(node.extents@, 0);
            assert forall|i: int| 0 <= i < after.len() implies (#[trigger] after[i]).0 != 0 by {
                if i < n {
                    assert(before[i].0 != 0);
                }
            }
            assert forall|i: int, j: int| 0 <= i < j < after.len() implies (#[trigger] after[i]).0
                != (#[trigger] after[j]).0 by {
                if j == n {
                    assert(before[i].0 != block);
                } else {
                    assert(before[i].0 != before[j].0);
                }
            }
            assert forall|i: int, j: int| 0 <= i && j == i + 1 && j < after.len() implies (
            #[trigger] after[i]).1.next == (#[trigger] after[j]).0 && after[j].1.prev
                == after[i].0 by {
                if j < n {
                    assert(before[i].1.next == before[j].0 && before[j].1.prev == before[i].0);
                }
            }
        }
    }

    /// Clears slot `slot` of node `node`. An overflow node that is then
    /// without extents is taken out of the chain, its neighbours are linked
    /// to each other, and its block is returned for the allocator to take
    /// back. The first node stays in any case.
    pub fn remove_extent(&mut self, node: usize, slot: usize) -> (r: Result<
        Option<u64>,
        ChainError,
    >)
        requires
            old(self).wf(),
        ensures
            final(self).wf(),
            node >= old(self)@.len() || slot >= 31 ==> r == Err::<Option<u64>, ChainError>(
                ChainError::NoSuchSlot,
            ) && final(self)@ == old(self)@,
            node < old(self)@.len() && slot < 31 ==> {
                let n = old(self)@.len() as int;
                let at = node as int;
                let gone = old(self)@[at].1;
                let emptied = forall|j: int|
                    0 <= j < 31 && j != slot ==> (#[trigger] gone.extents[j]).length == 0;
                &&& final(self).spec_size() == old(self).spec_size() - gone.extents[slot as int].length
                &&& if at >= 1 && emptied {
                    &&& r == Ok::<Option<u64>, ChainError>(Some(old(self)@[at].0))
                    &&& final(self)@.len() == n - 1
                    &&& forall|i: int| 0 <= i < at - 1 ==> final(self)@[i] == old(self)@[i]
                    &&& forall|i: int| at < i < n - 1 ==> final(self)@[i] == old(self)@[i + 1]
                    &&& final(self)@[at - 1].0 == old(self)@[at - 1].0
                    &&& final(self)@[at - 1].1.prev == old(self)@[at - 1].1.prev
                    &&& final(self)@[at - 1].1.extents == old(self)@[at - 1].1.extents
                    &&& final(self)@[at - 1].1.next == gone.next
                    &&& at < n - 1 ==> {
                        &&& final(self)@[at].0 == old(self)@[at + 1].0
                        &&& final(self)@[at].1.prev == gone.prev
                        &&& final(self)@[at].1.next == old(self)@[at + 1].1.next
                        &&& final(self)@[at].1.extents == old(self)@[at + 1].1.extents
                    }
                } else {
                    &&& r == Ok::<Option<u64>, ChainError>(None)
                    &&& final(self)@.len() == n
                    &&& final(self)@[at].0 == old(self)@[at].0
                    &&& with_extent(gone, final(self)@[at].1, slot as int, Extent { offset: 0, length: 0 })
                    &&& forall|i: int| 0 <= i < n && i != at ==> final(self)@[i] == old(self)@[i]
                }
            },
    {
        let n = self.nodes.len();
        if node >= n || slot >= 31 {
            return Err(ChainError::NoSuchSlot);
        }
        let ghost before = self.nodes@;
        let ghost gone = before[node as int].1;
        self.place(node, slot, Extent::default());
        let (block, cleared) = self.nodes[node];
        proof {
            assert(cleared.extents@[slot as int].length == 0);
            assert forall|j: int| 0 <= j < 31 && j != slot implies (#[trigger] cleared.extents[j])
                == gone.extents[j] by {
                assert(cleared.extents@[j] == gone.extents@[j]);
            }
        }
        if node == 0 || !is_unused(&cleared) {
            return Ok(None);
        }
        let ghost mid = self.nodes@;
        self.unlink(node);
        proof {
            let after = self.nodes@;
            let at = node as int;
            assert forall|j: int| 0 <= j < 31 && j != slot implies (#[trigger] gone.extents[j]).length
                == 0 by {
                assert(cleared.extents[j] == gone.extents[j]);
            }
            assert forall|i: int| 0 <= i < at - 1 implies after[i] == before[i] by {
                assert(mid[i] == before[i]);
            }
            assert forall|i: int| at < i < n - 1 implies after[i] == before[i + 1] by {
                assert(mid[i + 1] == before[i + 1]);
            }
            assert(mid[at - 1] == before[at - 1]);
            if at < n - 1 {
                assert(mid[at + 1] == before[at + 1]);
            }
        }
        Ok(Some(block))
    }

    /// Takes the overflow node `at`, which holds no extent, out of the chain.
    fn unlink(&mut self, at: usize)
        requires
            old(self).wf(),
            1 <= at < old(self)@.len(),
            unused(old(self)@[at as int].1),
        ensures
            final(self).wf(),
            final(self).spec_size() == old(self).spec_size(),
            final(self)@.len() == old(self)@.len() - 1,
            forall|i: int| 0 <= i < at - 1 ==> final(self)@[i] == old(self)@[i],
            forall|i: int| at < i < old(self)@.len() - 1 ==> final(self)@[i] == old(self)@[i + 1],
            final(self)@[at - 1].0 == old(self)@[at - 1].0,
            final(self)@[at - 1].1.prev == old(self)@[at - 1].1.prev,
            final(self)@[at - 1].1.extents == old(self)@[at - 1].1.extents,
            final(self)@[at - 1].1.next == old(self)@[at as int].1.next,
            at < old(self)@.len() - 1 ==> {
                &&& final(self)@[at as int].0 == old(self)@[at + 1].0
                &&& final(self)@[at as int].1.prev == old(self)@[at as int].1.prev
                &&& final(self)@[at as int].1.next == old(self)@[at + 1].1.next
                &&& final(self)@[at as int].1.extents == old(self)@[at + 1].1.extents
            },
    {
        let n = self.nodes.len();
        let ghost before = self.nodes@;
        let (_, gone) = self.nodes[at];
        let (prev_block, mut prev) = self.nodes[at - 1];
        prev.next = gone.next;
        self.nodes[at - 1] = (prev_block, prev);
        if at + 1 < n {
            let (next_block, mut next) = self.nodes[at + 1];
            next.prev = gone.prev;
            self.nodes[at + 1] = (next_block, next);
        }
        let ghost mid = self.nodes@;
        self.nodes.remove(at);
        proof {
            let after = self.nodes@;
            assert(gone.prev == before[at - 1].0 && before[at - 1].1.next == before[at as int].0);
            if at + 1 < n {
                assert(gone.next == before[at + 1].0 && before[at + 1].1.prev
                    == before[at as int].0);
            }
            let back = |i: int|
                if i < at {
                    i
                } else {
                    i + 1
                };
            assert forall|i: int| 0 <= i < after.len() implies (#[trigger] after[i]).0
                == before[back(i)].0 && after[i].1.extents == before[back(i)].1.extents by {}
            assert forall|i: int| 0 <= i < after.len() implies (#[trigger] after[i]).0 != 0 by {
                assert(before[back(i)].0 != 0);
            }
            assert forall|i: int, j: int| 0 <= i < j < after.len() implies (#[trigger] after[i]).0
                != (#[trigger] after[j]).0 by {
                assert(before[back(i)].0 != before[back(j)].0);
            }
            assert forall|i: int, j: int| 0 <= i && j == i + 1 && j < after.len() implies (
            #[trigger] after[i]).1.next == (#[trigger] after[j]).0 && after[j].1.prev
                == after[i].0 by {
                if j < at {
                    assert(before[i].1.next == before[j].0 && before[j].1.prev == before[i].0);
                } else if i >= at {
                    assert(before[i + 1].1.next == before[j + 1].0 && before[j + 1].1.prev
                        == before[i + 1].0);
                }
            }
            assert(after[0].1.prev == 0);
            assert(after.last().1.next == 0) by {
                if at == n - 1 {
                    assert(gone.next == 0);
                }
            }
            total_length_of_unused(gone.extents@);
            chain_size_update(before, at - 1, (prev_block, prev));
            let first = before.update(at - 1, (prev_block, prev));
            if at + 1 < n {
                chain_size_update(first, at + 1, mid[at + 1]);
                assert(mid =~= first.update(at + 1, mid[at + 1]));
            } else {
                assert(mid =~= first);
            }
            chain_size_remove(mid, at as int);
        }
    }

    /// Whether a node of the chain stands in `block`.
    fn holds(&self, block: u64) -> (r: bool)
        ensures
            r == holds_block(self@, block),
    {
        let mut i: usize = 0;
        while i < self.nodes.len()
            invariant
                i <= self.nodes@.len(),
                forall|a: int| 0 <= a < i ==> (#[trigger] self.nodes@[a]).0 != block,
            decreases self.nodes@.len() - i,
        {
            if self.nodes[i].0 == block {
                return true;
            }
            i += 1;
        }
        false
    }
}

/// The first unused slot of `node`, if it has one.
pub fn free_slot(node: &ExNode) -> (r: Option<usize>)
    ensures
        match r {
            Some(slot) => first_free(*node, slot as int),
            None => full(*node),
        },
{
    let mut i: usize = 0;
    while i < 31
        invariant
            i <= 31,
            forall|j: int| 0 <= j < i ==> (#[trigger] node.extents[j]).length != 0,
        decreases 31 - i,
    {
        if node.extents[i].length == 0 {
            return Some(i);
        }
        i += 1;
    }
    None
}

/// Nodes that keep their blocks and their links stay a chain.
proof fn relinked(before: Seq<(u64, ExNode)>, after: Seq<(u64, ExNode)>)
    requires
        linked(before),
        after.len() == before.len(),
        forall|i: int|
            0 <= i < before.len() ==> (#[trigger] after[i]).0 == before[i].0 && after[i].1.prev
                == before[i].1.prev && after[i].1.next == before[i].1.next,
    ensures
        linked(after),
{
    assert forall|i: int| 0 <= i < after.len() implies (#[trigger] after[i]).0 != 0 by {
        assert(before[i].0 != 0);
    }
    assert forall|i: int, j: int| 0 <= i < j < after.len() implies (#[trigger] after[i]).0 != (
    #[trigger] after[j]).0 by {
        assert(before[i].0 != before[j].0);
    }
    assert forall|i: int, j: int| 0 <= i && j == i + 1 && j < after.len() implies (
    #[trigger] after[i]).1.next == (#[trigger] after[j]).0 && after[j].1.prev == after[i].0 by {
        assert(before[i].1.next == before[j].0 && before[j].1.prev == before[i].0);
    }
}

/// Whether no slot of `node` is in use.
pub fn is_unused(node: &ExNode) -> (r: bool)
    ensures
        r == unused(*node),
{
    let mut i: usize = 0;
    while i < 31
        invariant
            i <= 31,
            forall|j: int| 0 <= j < i ==> (#[trigger] node.extents[j]).length == 0,
        decreases 31 - i,
    {
        if node.extents[i].length != 0 {
            return false;
        }
        i += 1;
    }
    true
}

/// Taking a node out lowers the sum by the size of the node.
proof fn chain_size_remove(nodes: Seq<(u64, ExNode)>, at: int)
    requires
        0 <= at < nodes.len(),
    ensures
        chain_size(nodes.remove(at)) == chain_size(nodes) - nodes[at].1.spec_size(),
    decreases nodes.len(),
{
    let after = nodes.remove(at);
    if at == nodes.len() - 1 {
        assert(after =~= nodes.drop_last());
    } else {
        chain_size_remove(nodes.drop_last(), at);
        assert(after.drop_last() =~= nodes.drop_last().remove(at));
    }
}

/// The sum over the first `a` nodes is at most the sum over the first `b`.
proof fn chain_size_grows(nodes: Seq<(u64, ExNode)>, a: int, b: int)
    requires
        0 <= a <= b <= nodes.len(),
    ensures
        chain_size(nodes.subrange(0, a)) <= chain_size(nodes.subrange(0, b)),
    decreases b - a,
{
    if a < b {
        chain_size_grows(nodes, a, b - 1);
        assert(nodes.subrange(0, b).drop_last() =~= nodes.subrange(0, b - 1));
    }
}

/// Putting another extent into a slot changes the sum by the difference of
/// the two lengths.
proof fn total_length_update(extents: Seq<Extent>, slot: int, extent: Extent)
    requires
        0 <= slot < extents.len(),
    ensures
        total_length(extents.update(slot, extent)) == total_length(extents) - extents[slot].length
            + extent.length,
    decreases extents.len(),
{
    let after = extents.update(slot, extent);
    if slot == extents.len() - 1 {
        assert(after.drop_last() =~= extents.drop_last());
    } else {
        total_length_update(extents.drop_last(), slot, extent);
        assert(after.drop_last() =~= extents.drop_last().update(slot, extent));
    }
}

/// Putting another node into a place changes the sum by the difference of
/// the sizes of the two nodes.
proof fn chain_size_update(nodes: Seq<(u64, ExNode)>, at: int, entry: (u64, ExNode))
    requires
        0 <= at < nodes.len(),
    ensures
        chain_size(nodes.update(at, entry)) == chain_size(nodes) - nodes[at].1.spec_size()
            + entry.1.spec_size(),
    decreases nodes.len(),
{
    let after = nodes.update(at, entry);
    if at == nodes.len() - 1 {
        assert(after.drop_last() =~= nodes.drop_last());
    } else {
        chain_size_update(nodes.drop_last(), at, entry);
        assert(after.drop_last() =~= nodes.drop_last().update(at, entry));
    }
}

} // verus!
