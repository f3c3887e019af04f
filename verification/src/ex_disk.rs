//! Extent chains on a disk: each node of a chain is one page, and the
//! `next` of a node is the block of the node after it.

use crate::disk::{zeros, Disk};
use crate::ex_chain::{linked, ExChain};
use crate::ex_node::ExNode;
use syscall::error::Error;
use vstd::prelude::*;

verus! {

/// Why a chain could not be read.
#[derive(Debug)]
pub enum LoadError {
    /// The disk failed; this is its error as it came.
    Disk(Error),
    /// The nodes on the disk do not form a chain, or there is no end to
    /// them within the number of nodes that was allowed.
    Broken,
}

/// Whether reading the node in `block` may take the disk from `pre` to
/// `post` and give `res`: the disk is asked once for the page, with a
/// buffer of zeros, and its error is handed on.
pub open spec fn node_read<D: Disk>(
    pre: D,
    post: D,
    block: u64,
    res: Result<ExNode, LoadError>,
) -> bool {
    exists|bytes: Seq<u8>, got: Result<usize, Error>| #[trigger]
        D::read_spec(&pre, &post, block, zeros(512), bytes, got) && bytes.len() == 512 && match got {
            Ok(_) => res matches Ok(node) && node.spec_bytes() == bytes,
            Err(e) => res == Err::<ExNode, LoadError>(LoadError::Disk(e)),
        }
}

/// Reads the node in `block`.
pub fn read_node<D: Disk>(disk: &mut D, block: u64) -> (res: Result<ExNode, LoadError>)
    requires
        old(disk).inv(),
    ensures
        final(disk).inv(),
        node_read(*old(disk), *final(disk), block, res),
{
    let mut page = [0u8;512];
    assert(page@ =~= zeros(512));
    match disk.read_at(block, &mut page) {
        Ok(m) => {
            assert(D::read_spec(
                &*old(disk),
                &*disk,
                block,
                zeros(512),
                page@,
                Ok::<usize, Error>(m),
            ));
            match ExNode::from_bytes(&page) {
                Some(node) => Ok(node),
                None => Err(LoadError::Broken),
            }
        },
        Err(e) => {
            assert(D::read_spec(
                &*old(disk),
                &*disk,
                block,
                zeros(512),
                page@,
                Err::<usize, Error>(e),
            ));
            Err(LoadError::Disk(e))
        },
    }
}

/// Whether reading on from the node in `block`, behind the nodes `found`
/// and with `limit` nodes still allowed, may take the disk from `pre` to
/// `post` and give `res`. Block 0 is the end: the nodes found are the
/// result where they form a chain. Else one node more is read, and the
/// reading goes on at its `next`.
pub open spec fn chain_read<D: Disk>(
    pre: D,
    post: D,
    block: u64,
    limit: nat,
    found: Seq<(u64, ExNode)>,
    res: Result<ExChain, LoadError>,
) -> bool
    decreases limit,
{
    if block == 0 {
        post == pre && if linked(found) {
            res matches Ok(chain) && chain@ == found
        } else {
            res == Err::<ExChain, LoadError>(LoadError::Broken)
        }
    } else if limit == 0 {
        post == pre && res == Err::<ExChain, LoadError>(LoadError::Broken)
    } else {
        exists|mid: D, read: Result<ExNode, LoadError>| #[trigger]
            node_read(pre, mid, block, read) && match read {
                Ok(node) => chain_read(
                    mid,
                    post,
                    node.next,
                    (limit - 1) as nat,
                    found.push((block, node)),
                    res,
                ),
                Err(e) => post == mid && res == Err::<ExChain, LoadError>(e),
            }
    }
}

/// Reads the chain whose first node stands in `block`, node by node along
/// the `next` of each, and gives up after `limit` nodes.
pub fn load<D: Disk>(disk: &mut D, block: u64, limit: usize) -> (res: Result<ExChain, LoadError>)
    requires
        old(disk).inv(),
    ensures
        final(disk).inv(),
        chain_read(*old(disk), *final(disk), block, limit as nat, Seq::empty(), res),
        res matches Ok(chain) ==> chain.wf() && chain@[0].0 == block && chain@.len() <= limit,
{
    let mut nodes: Vec<(u64, ExNode)> = Vec::new();
    let mut next = block;
    let mut left = limit;
    while next != 0
        invariant
            disk.inv(),
            nodes@.len() + left == limit,
            nodes@.len() == 0 ==> next == block,
            nodes@.len() > 0 ==> nodes@[0].0 == block,
            forall|post: D, res: Result<ExChain, LoadError>| #[trigger]
                chain_read(*disk, post, next, left as nat, nodes@, res) ==> chain_read(
                    *old(disk),
                    post,
                    block,
                    limit as nat,
                    Seq::empty(),
                    res,
                ),
        decreases left,
    {
        if left == 0 {
            assert(chain_read(
                *disk,
                *disk,
                next,
                0,
                nodes@,
                Err::<ExChain, LoadError>(LoadError::Broken),
            ));
            return Err(LoadError::Broken);
        }
        let ghost before = *disk;
        let ghost found = nodes@;
        let ghost at = next;
        let read = read_node(disk, next);
        match read {
            Ok(node) => {
                nodes.push((next, node));
                next = node.next;
                left -= 1;
                assert forall|post: D, res: Result<ExChain, LoadError>| #[trigger]
                    chain_read(*disk, post, next, left as nat, nodes@, res) implies chain_read(
                    *old(disk),
                    post,
                    block,
                    limit as nat,
                    Seq::empty(),
                    res,
                ) by {
                    assert(node_read(before, *disk, at, read));
                    assert(chain_read(before, post, at, (left + 1) as nat, found, res));
                }
            },
            Err(e) => {
                assert(node_read(before, *disk, at, read));
                assert(chain_read(
                    before,
                    *disk,
                    at,
                    left as nat,
                    found,
                    Err::<ExChain, LoadError>(e),
                ));
                return Err(e);
            },
        }
    }
    let ghost found = nodes@;
    let res = match ExChain::from_nodes(nodes) {
        Some(chain) => Ok(chain),
        None => Err(LoadError::Broken),
    };
    assert(chain_read(*disk, *disk, 0, left as nat, found, res));
    res
}

/// Whether writing the nodes from place `from` on, each to its block, may
/// take the disk from `pre` to `post` and give `res`: the first error ends
/// the writes and is their result.
pub open spec fn chain_written<D: Disk>(
    pre: D,
    post: D,
    nodes: Seq<(u64, ExNode)>,
    from: int,
    res: Result<(), Error>,
) -> bool
    decreases nodes.len() - from,
{
    if from < 0 || from >= nodes.len() {
        post == pre && res == Ok::<(), Error>(())
    } else {
        exists|mid: D, wrote: Result<usize, Error>| #[trigger]
            D::write_spec(&pre, &mid, nodes[from].0, nodes[from].1.spec_bytes(), wrote)
                && match wrote {
                Ok(_) => chain_written(mid, post, nodes, from + 1, res),
                Err(e) => post == mid && res == Err::<(), Error>(e),
            }
    }
}

/// Writes every node of the chain to its block, the first node first.
pub fn store<D: Disk>(disk: &mut D, chain: &ExChain) -> (res: Result<(), Error>)
    requires
        old(disk).inv(),
    ensures
        final(disk).inv(),
        chain_written(*old(disk), *final(disk), chain@, 0, res),
{
    let nodes = chain.nodes();
    let n = nodes.len();
    let mut i: usize = 0;
    while i < n
        invariant
            disk.inv(),
            i <= n,
            n == chain@.len(),
            nodes@ == chain@,
            forall|post: D, res: Result<(), Error>| #[trigger]
                chain_written(*disk, post, chain@, i as int, res) ==> chain_written(
                    *old(disk),
                    post,
                    chain@,
                    0,
                    res,
                ),
        decreases n - i,
    {
        let (block, node) = nodes[i];
        let bytes = node.to_bytes();
        let ghost before = *disk;
        let wrote = disk.write_at(block, bytes.as_slice());
        assert(D::write_spec(&before, &*disk, block, node.spec_bytes(), wrote));
        match wrote {
            Ok(_) => {
                assert forall|post: D, res: Result<(), Error>| #[trigger]
                    chain_written(*disk, post, chain@, i + 1, res) implies chain_written(
                    *old(disk),
                    post,
                    chain@,
                    0,
                    res,
                ) by {
                    assert(chain_written(before, post, chain@, i as int, res));
                }
                i += 1;
            },
            Err(e) => {
                assert(chain_written(before, *disk, chain@, i as int, Err::<(), Error>(e)));
                return Err(e);
            },
        }
    }
    assert(chain_written(*disk, *disk, chain@, n as int, Ok::<(), Error>(())));
    Ok(())
}

} // verus!
