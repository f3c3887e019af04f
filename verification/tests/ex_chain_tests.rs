use blockcore::disk::Disk;
use blockcore::ex_chain::{free_slot, is_unused, ChainError, ExChain, Placed};
use blockcore::ex_disk::{load, read_node, store, LoadError};
use blockcore::ex_node::ExNode;
use blockcore::extent::Extent;
use std::cell::{Cell, RefCell};
use std::collections::HashMap;
use std::rc::Rc;
use syscall::error::{Error, EIO};

#[derive(Default)]
struct Record {
    pages: RefCell<HashMap<u64, [u8; 512]>>,
    reads: Cell<usize>,
    writes: RefCell<Vec<u64>>,
    fail_after: Cell<Option<usize>>,
}

/// A disk in memory. Pages that were never written read as zeros.
struct MemDisk {
    record: Rc<Record>,
}

impl MemDisk {
    fn step(&self) -> Result<(), Error> {
        if let Some(left) = self.record.fail_after.get() {
            if left == 0 {
                return Err(Error::new(EIO));
            }
            self.record.fail_after.set(Some(left - 1));
        }
        Ok(())
    }
}

impl Disk for MemDisk {
    fn read_at(&mut self, block: u64, buffer: &mut [u8]) -> Result<usize, Error> {
        self.step()?;
        self.record.reads.set(self.record.reads.get() + 1);
        let pages = self.record.pages.borrow();
        for (i, chunk) in buffer.chunks_mut(512).enumerate() {
            let page = pages.get(&(block + i as u64)).copied().unwrap_or([0; 512]);
            chunk.copy_from_slice(&page[..chunk.len()]);
        }
        Ok(buffer.len())
    }

    fn write_at(&mut self, block: u64, buffer: &[u8]) -> Result<usize, Error> {
        self.step()?;
        self.record.writes.borrow_mut().push(block);
        let mut pages = self.record.pages.borrow_mut();
        for (i, chunk) in buffer.chunks(512).enumerate() {
            let page = pages.entry(block + i as u64).or_insert([0; 512]);
            page[..chunk.len()].copy_from_slice(chunk);
        }
        Ok(buffer.len())
    }

    fn size(&mut self) -> Result<u64, Error> {
        Ok(1 << 20)
    }
}

fn disk() -> (MemDisk, Rc<Record>) {
    let record = Rc::new(Record::default());
    (MemDisk { record: record.clone() }, record)
}

/// A chain of three nodes in the blocks 10, 20 and 30.
fn three_nodes() -> ExChain {
    let mut chain = ExChain::new(10, full_node()).unwrap();
    chain.append_extent(Extent::new(1, 1), Some(20)).unwrap();
    for i in 1..31 {
        chain.append_extent(Extent::new(i, 1), None).unwrap();
    }
    chain.append_extent(Extent::new(2, 2), Some(30)).unwrap();
    chain
}

fn full_node() -> ExNode {
    let mut node = ExNode::default();
    for i in 0..31 {
        node.extents[i] = Extent::new(100 + i as u64, 1);
    }
    node
}

/// Whether the links of the chain agree with each other in both directions.
fn links_agree(chain: &ExChain) -> bool {
    let n = chain.len();
    let mut blocks = Vec::new();
    for i in 0..n {
        let block = chain.block(i).unwrap();
        if block == 0 || blocks.contains(&block) {
            return false;
        }
        blocks.push(block);
    }
    if chain.node(0).unwrap().prev != 0 || chain.node(n - 1).unwrap().next != 0 {
        return false;
    }
    for i in 0..n - 1 {
        if chain.node(i).unwrap().next != blocks[i + 1] {
            return false;
        }
        if chain.node(i + 1).unwrap().prev != blocks[i] {
            return false;
        }
    }
    true
}

#[test]
fn full_first_node_gets_one_overflow_node() {
    let mut chain = ExChain::new(10, full_node()).unwrap();
    assert!(chain.needs_node());
    let placed = chain.append_extent(Extent::new(900, 4), Some(77)).unwrap();
    assert_eq!(placed, Placed { node: 1, slot: 0, allocated: true });
    assert_eq!(chain.len(), 2);
    assert_eq!(chain.block(0), Some(10));
    assert_eq!(chain.block(1), Some(77));
    assert_eq!(chain.node(0).unwrap().next, 77);
    assert_eq!(chain.node(0).unwrap().prev, 0);
    assert_eq!(chain.node(0).unwrap().extents, full_node().extents);
    assert_eq!(chain.node(1).unwrap().prev, 10);
    assert_eq!(chain.node(1).unwrap().next, 0);
    assert_eq!(chain.node(1).unwrap().extents[0], Extent::new(900, 4));
    assert_eq!(chain.node(1).unwrap().size(), 4);
    assert_eq!(chain.size(), 35);
    // The next extent goes to the new node without another block.
    assert!(!chain.needs_node());
    let placed = chain.append_extent(Extent::new(901, 1), Some(78)).unwrap();
    assert_eq!(placed, Placed { node: 1, slot: 1, allocated: false });
    assert_eq!(chain.len(), 2);
}

#[test]
fn new_chain_wants_a_block_and_no_neighbours() {
    assert!(ExChain::new(0, ExNode::default()).is_none());
    let mut node = ExNode::default();
    node.next = 5;
    assert!(ExChain::new(1, node).is_none());
    node.next = 0;
    node.prev = 5;
    assert!(ExChain::new(1, node).is_none());
    node.prev = 0;
    let chain = ExChain::new(1, node).unwrap();
    assert_eq!(chain.len(), 1);
    assert_eq!(chain.block(0), Some(1));
    assert_eq!(chain.block(1), None);
    assert!(chain.node(1).is_none());
    assert_eq!(chain.size(), 0);
}

#[test]
fn append_takes_the_first_unused_slot_of_the_first_node() {
    let mut chain = ExChain::new(3, ExNode::default()).unwrap();
    assert!(!chain.needs_node());
    assert_eq!(
        chain.append_extent(Extent::new(50, 5), None),
        Ok(Placed { node: 0, slot: 0, allocated: false })
    );
    assert_eq!(
        chain.append_extent(Extent::new(60, 6), Some(9)),
        Ok(Placed { node: 0, slot: 1, allocated: false })
    );
    assert_eq!(chain.remove_extent(0, 0), Ok(None));
    assert_eq!(
        chain.append_extent(Extent::new(70, 7), None),
        Ok(Placed { node: 0, slot: 0, allocated: false })
    );
    assert_eq!(chain.node(0).unwrap().extents[0], Extent::new(70, 7));
    assert_eq!(chain.node(0).unwrap().extents[1], Extent::new(60, 6));
    assert_eq!(chain.size(), 13);
    assert_eq!(chain.len(), 1);
}

#[test]
fn append_prefers_the_first_node_over_the_last() {
    let mut chain = ExChain::new(10, full_node()).unwrap();
    chain.append_extent(Extent::new(900, 4), Some(77)).unwrap();
    chain.remove_extent(0, 12).unwrap();
    assert_eq!(
        chain.append_extent(Extent::new(5, 5), None),
        Ok(Placed { node: 0, slot: 12, allocated: false })
    );
}

#[test]
fn append_without_a_block_leaves_the_chain() {
    let mut chain = ExChain::new(10, full_node()).unwrap();
    assert_eq!(chain.append_extent(Extent::new(1, 1), None), Err(ChainError::NoSpace));
    assert_eq!(chain.len(), 1);
    assert_eq!(chain.node(0).unwrap().next, 0);
    assert_eq!(chain.size(), 31);
}

#[test]
fn append_with_a_block_in_use_leaves_the_chain() {
    let mut chain = ExChain::new(10, full_node()).unwrap();
    assert_eq!(chain.append_extent(Extent::new(1, 1), Some(0)), Err(ChainError::BlockInUse));
    assert_eq!(chain.append_extent(Extent::new(1, 1), Some(10)), Err(ChainError::BlockInUse));
    assert_eq!(chain.len(), 1);
    assert_eq!(chain.node(0).unwrap().next, 0);
    chain.append_extent(Extent::new(1, 1), Some(11)).unwrap();
    for i in 1..31 {
        chain.append_extent(Extent::new(i, 1), None).unwrap();
    }
    assert_eq!(chain.append_extent(Extent::new(1, 1), Some(11)), Err(ChainError::BlockInUse));
    assert_eq!(chain.len(), 2);
}

#[test]
fn append_of_an_empty_extent_is_refused() {
    let mut chain = ExChain::new(10, ExNode::default()).unwrap();
    assert_eq!(chain.append_extent(Extent::new(5, 0), Some(7)), Err(ChainError::ZeroLength));
    assert_eq!(chain.size(), 0);
    assert_eq!(chain.node(0).unwrap().extents[0], Extent::default());
}

#[test]
fn chain_grows_node_by_node() {
    let mut chain = ExChain::new(1, ExNode::default()).unwrap();
    let mut next_block = 100;
    let mut allocated = 0;
    for i in 0..31 * 4 {
        let fresh = if chain.needs_node() {
            next_block += 1;
            Some(next_block)
        } else {
            None
        };
        let placed = chain.append_extent(Extent::new(i, 2), fresh).unwrap();
        assert_eq!(placed.allocated, fresh.is_some());
        if placed.allocated {
            allocated += 1;
        }
        assert_eq!(placed.node, (i / 31) as usize);
        assert_eq!(placed.slot, (i % 31) as usize);
        assert!(links_agree(&chain));
        assert_eq!(chain.size(), 2 * (i + 1));
    }
    assert_eq!(allocated, 3);
    assert_eq!(chain.len(), 4);
}

#[test]
fn remove_clears_the_slot() {
    let mut chain = ExChain::new(10, full_node()).unwrap();
    assert_eq!(chain.remove_extent(0, 30), Ok(None));
    assert_eq!(chain.node(0).unwrap().extents[30], Extent::default());
    assert_eq!(chain.size(), 30);
    assert_eq!(chain.remove_extent(0, 30), Ok(None));
    assert_eq!(chain.size(), 30);
}

#[test]
fn remove_of_no_such_slot_is_refused() {
    let mut chain = ExChain::new(10, full_node()).unwrap();
    assert_eq!(chain.remove_extent(0, 31), Err(ChainError::NoSuchSlot));
    assert_eq!(chain.remove_extent(1, 0), Err(ChainError::NoSuchSlot));
    assert_eq!(chain.remove_extent(usize::MAX, usize::MAX), Err(ChainError::NoSuchSlot));
    assert_eq!(chain.size(), 31);
}

#[test]
fn emptied_overflow_node_is_unlinked_and_its_block_returned() {
    let mut chain = ExChain::new(10, full_node()).unwrap();
    chain.append_extent(Extent::new(900, 4), Some(77)).unwrap();
    chain.append_extent(Extent::new(901, 5), None).unwrap();
    assert_eq!(chain.remove_extent(1, 0), Ok(None));
    assert_eq!(chain.len(), 2);
    assert_eq!(chain.remove_extent(1, 1), Ok(Some(77)));
    assert_eq!(chain.len(), 1);
    assert_eq!(chain.node(0).unwrap().next, 0);
    assert_eq!(chain.size(), 31);
    assert!(links_agree(&chain));
}

#[test]
fn the_first_node_stays_when_emptied() {
    let mut chain = ExChain::new(10, ExNode::default()).unwrap();
    chain.append_extent(Extent::new(1, 1), None).unwrap();
    assert_eq!(chain.remove_extent(0, 0), Ok(None));
    assert_eq!(chain.len(), 1);
    assert_eq!(chain.size(), 0);
}

#[test]
fn unlink_in_the_middle_joins_the_neighbours() {
    let mut chain = ExChain::new(10, full_node()).unwrap();
    chain.append_extent(Extent::new(1, 1), Some(20)).unwrap();
    for i in 1..31 {
        chain.append_extent(Extent::new(i, 1), None).unwrap();
    }
    chain.append_extent(Extent::new(2, 2), Some(30)).unwrap();
    assert_eq!(chain.len(), 3);
    for slot in 0..30 {
        assert_eq!(chain.remove_extent(1, slot), Ok(None));
    }
    assert_eq!(chain.remove_extent(1, 30), Ok(Some(20)));
    assert_eq!(chain.len(), 2);
    assert_eq!(chain.block(1), Some(30));
    assert_eq!(chain.node(0).unwrap().next, 30);
    assert_eq!(chain.node(1).unwrap().prev, 10);
    assert_eq!(chain.node(1).unwrap().next, 0);
    assert_eq!(chain.node(1).unwrap().extents[0], Extent::new(2, 2));
    assert_eq!(chain.size(), 33);
    assert!(links_agree(&chain));
}

#[test]
fn size_is_what_was_added_and_not_removed() {
    let mut chain = ExChain::new(1, ExNode::default()).unwrap();
    let mut expected = 0u64;
    let mut next_block = 1;
    let mut places = Vec::new();
    for i in 1..=80u64 {
        let fresh = if chain.needs_node() {
            next_block += 1;
            Some(next_block)
        } else {
            None
        };
        let placed = chain.append_extent(Extent::new(i * 1000, i), fresh).unwrap();
        places.push((chain.block(placed.node).unwrap(), placed.slot, i));
        expected += i;
        assert_eq!(chain.size(), expected);
        if i % 3 == 0 {
            let (block, slot, length) = places.remove(0);
            let node = (0..chain.len()).find(|n| chain.block(*n) == Some(block)).unwrap();
            chain.remove_extent(node, slot).unwrap();
            expected -= length;
            assert_eq!(chain.size(), expected);
        }
        assert!(links_agree(&chain));
    }
    assert_eq!(chain.checked_size(), Some(expected));
}

#[test]
fn checked_size_sees_overflow() {
    let mut head = ExNode::default();
    head.extents[0] = Extent::new(0, u64::MAX);
    let mut chain = ExChain::new(1, head).unwrap();
    assert_eq!(chain.checked_size(), Some(u64::MAX));
    chain.append_extent(Extent::new(0, 1), None).unwrap();
    assert_eq!(chain.checked_size(), None);
}

#[test]
fn from_nodes_takes_chains_only() {
    let mut a = ExNode::default();
    let mut b = ExNode::default();
    let mut c = ExNode::default();
    a.next = 2;
    b.prev = 1;
    b.next = 3;
    c.prev = 2;
    let chain = ExChain::from_nodes(vec![(1, a), (2, b), (3, c)]).unwrap();
    assert_eq!(chain.len(), 3);
    assert!(links_agree(&chain));
    assert!(ExChain::from_nodes(vec![]).is_none());
    // A link that is not answered.
    let mut wrong = c;
    wrong.prev = 1;
    assert!(ExChain::from_nodes(vec![(1, a), (2, b), (3, wrong)]).is_none());
    // A chain that does not end.
    assert!(ExChain::from_nodes(vec![(1, a), (2, b)]).is_none());
    // A chain that does not begin.
    assert!(ExChain::from_nodes(vec![(2, b), (3, c)]).is_none());
    // A block of 0.
    let mut z = ExNode::default();
    z.prev = 1;
    let mut to_zero = a;
    to_zero.next = 0;
    assert!(ExChain::from_nodes(vec![(1, to_zero), (0, z)]).is_none());
    // A block that comes twice: the chain would go round.
    let mut a2 = ExNode::default();
    a2.next = 2;
    let mut b2 = ExNode::default();
    b2.prev = 1;
    b2.next = 1;
    let mut a3 = ExNode::default();
    a3.prev = 2;
    assert!(ExChain::from_nodes(vec![(1, a2), (2, b2), (1, a3)]).is_none());
}

#[test]
fn free_slot_and_is_unused() {
    let mut node = ExNode::default();
    assert_eq!(free_slot(&node), Some(0));
    assert!(is_unused(&node));
    node.extents[0] = Extent::new(1, 1);
    node.extents[1] = Extent::new(1, 1);
    node.extents[3] = Extent::new(1, 1);
    assert_eq!(free_slot(&node), Some(2));
    assert!(!is_unused(&node));
    assert_eq!(free_slot(&full_node()), None);
}

#[test]
fn chain_goes_to_disk_and_comes_back() {
    let (mut disk, record) = disk();
    let chain = three_nodes();
    store(&mut disk, &chain).unwrap();
    assert_eq!(record.writes.borrow().as_slice(), &[10, 20, 30]);
    let back = load(&mut disk, 10, 16).unwrap();
    assert_eq!(record.reads.get(), 3);
    assert_eq!(back.len(), 3);
    assert_eq!(back.size(), 64);
    assert!(links_agree(&back));
    for i in 0..3 {
        assert_eq!(back.block(i), chain.block(i));
        assert_eq!(back.node(i).unwrap().to_bytes(), chain.node(i).unwrap().to_bytes());
    }
    assert_eq!(back.nodes().len(), 3);
    let node = read_node(&mut disk, 20).unwrap();
    assert_eq!((node.prev, node.next), (10, 30));
}

#[test]
fn load_gives_up_at_the_limit() {
    let (mut disk, record) = disk();
    store(&mut disk, &three_nodes()).unwrap();
    assert!(matches!(load(&mut disk, 10, 2), Err(LoadError::Broken)));
    assert_eq!(record.reads.get(), 2);
    assert!(matches!(load(&mut disk, 10, 0), Err(LoadError::Broken)));
    assert!(load(&mut disk, 10, 3).is_ok());
}

#[test]
fn load_of_what_is_no_chain() {
    let (mut disk, record) = disk();
    // No chain starts in block 0.
    assert!(matches!(load(&mut disk, 0, 8), Err(LoadError::Broken)));
    assert_eq!(record.reads.get(), 0);
    store(&mut disk, &three_nodes()).unwrap();
    // A chain that is entered in the middle has a node before its first.
    assert!(matches!(load(&mut disk, 20, 8), Err(LoadError::Broken)));
    // Nodes that go round in a circle.
    let mut a = ExNode::default();
    a.next = 51;
    let mut b = ExNode::default();
    b.prev = 50;
    b.next = 50;
    disk.write_at(50, &a.to_bytes()).unwrap();
    disk.write_at(51, &b.to_bytes()).unwrap();
    assert!(matches!(load(&mut disk, 50, 8), Err(LoadError::Broken)));
    assert!(matches!(load(&mut disk, 50, 1000), Err(LoadError::Broken)));
}

#[test]
fn chain_disk_errors_are_handed_on() {
    let (mut disk, record) = disk();
    store(&mut disk, &three_nodes()).unwrap();
    for reads in 0..3 {
        record.fail_after.set(Some(reads));
        match load(&mut disk, 10, 8) {
            Err(LoadError::Disk(e)) => assert_eq!(e.errno, EIO),
            _ => panic!("the error of the disk is the result"),
        }
    }
    for writes in 0..3 {
        record.writes.borrow_mut().clear();
        record.fail_after.set(Some(writes));
        assert_eq!(store(&mut disk, &three_nodes()).unwrap_err().errno, EIO);
        assert_eq!(record.writes.borrow().len(), writes);
    }
    record.fail_after.set(Some(0));
    assert!(matches!(read_node(&mut disk, 10), Err(LoadError::Disk(_))));
}
