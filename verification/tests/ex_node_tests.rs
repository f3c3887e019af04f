use blockcore::ex_node::ExNode;
use blockcore::extent::Extent;
use blockcore::layout::{decode_word, encode_words};
use blockcore::PAGE_SIZE;
use std::mem;

#[test]
fn ex_node_size_test() {
    assert!(mem::size_of::<ExNode>() <= 512);
}

#[test]
fn ex_node_encodes_to_one_page() {
    assert_eq!(PAGE_SIZE, 512);
    assert_eq!(ExNode::default().to_bytes().len(), PAGE_SIZE);
    assert_eq!(mem::size_of::<ExNode>(), PAGE_SIZE);
    assert!(ExNode::default().to_bytes().iter().all(|b| *b == 0));
}

#[test]
fn ex_node_default_is_empty() {
    let node = ExNode::default();
    assert_eq!(node.prev, 0);
    assert_eq!(node.next, 0);
    assert_eq!(node.extents.len(), 31);
    for extent in node.extents.iter() {
        assert_eq!(*extent, Extent { offset: 0, length: 0 });
    }
    assert_eq!(node.size(), 0);
    assert_eq!(node.checked_size(), Some(0));
    assert!(node.present_extents().is_empty());
}

#[test]
fn ex_node_size_sums_lengths() {
    let mut node = ExNode::default();
    node.extents[0] = Extent::new(100, 7);
    node.extents[5] = Extent::new(900, 0);
    node.extents[30] = Extent::new(200, 35);
    assert_eq!(node.size(), 42);
    assert_eq!(node.checked_size(), Some(42));
    for i in 0..31 {
        node.extents[i] = Extent::new(i as u64, 2);
    }
    assert_eq!(node.size(), 62);
}

#[test]
fn ex_node_checked_size_sees_overflow() {
    let mut node = ExNode::default();
    node.extents[3] = Extent::new(0, u64::MAX);
    assert_eq!(node.checked_size(), Some(u64::MAX));
    assert_eq!(node.size(), u64::MAX);
    node.extents[4] = Extent::new(0, 1);
    assert_eq!(node.checked_size(), None);
    node.extents[4] = Extent::new(0, 0);
    node.extents[30] = Extent::new(0, u64::MAX);
    assert_eq!(node.checked_size(), None);
}

#[test]
fn ex_node_present_extents_skip_unused_slots() {
    let mut node = ExNode::default();
    node.extents[2] = Extent::new(10, 1);
    node.extents[3] = Extent::new(20, 0);
    node.extents[9] = Extent::new(30, 3);
    assert_eq!(node.present_extents(), vec![Extent::new(10, 1), Extent::new(30, 3)]);
}

#[test]
fn ex_node_debug_text_skips_unused_slots() {
    let mut node = ExNode::default();
    node.prev = 4;
    node.next = 9;
    node.extents[7] = Extent::new(10, 1);
    node.extents[8] = Extent::new(11, 0);
    assert_eq!(
        node.debug_text(),
        "ExNode { prev: 4, next: 9, extents: [Extent { offset: 10, length: 1 }] }"
    );
    assert_eq!(ExNode::default().debug_text(), "ExNode { prev: 0, next: 0, extents: [] }");
}

#[test]
fn ex_node_layout_is_little_endian() {
    let mut node = ExNode::default();
    node.prev = 0x0102030405060708;
    node.next = 2;
    node.extents[0] = Extent::new(3, 4);
    node.extents[30] = Extent::new(0xaabb, u64::MAX);
    let bytes = node.to_bytes();
    assert_eq!(&bytes[0..8], &[8, 7, 6, 5, 4, 3, 2, 1]);
    assert_eq!(&bytes[8..16], &[2, 0, 0, 0, 0, 0, 0, 0]);
    assert_eq!(&bytes[16..24], &[3, 0, 0, 0, 0, 0, 0, 0]);
    assert_eq!(&bytes[24..32], &[4, 0, 0, 0, 0, 0, 0, 0]);
    assert_eq!(&bytes[32..496], &[0u8; 464][..]);
    assert_eq!(&bytes[496..504], &[0xbb, 0xaa, 0, 0, 0, 0, 0, 0]);
    assert_eq!(&bytes[504..512], &[0xff; 8]);
}

#[test]
fn ex_node_bytes_round_trip() {
    let mut node = ExNode::default();
    node.prev = 11;
    node.next = 12;
    for i in 0..31 {
        node.extents[i] = Extent::new(1000 * i as u64, i as u64 % 3);
    }
    let bytes = node.to_bytes();
    let back = ExNode::from_bytes(&bytes).unwrap();
    assert_eq!(back.prev, 11);
    assert_eq!(back.next, 12);
    assert_eq!(back.extents, node.extents);
    assert_eq!(back.to_bytes(), bytes);
}

#[test]
fn ex_node_from_bytes_wants_one_page() {
    assert!(ExNode::from_bytes(&[0u8; 511]).is_none());
    assert!(ExNode::from_bytes(&[0u8; 513]).is_none());
    assert!(ExNode::from_bytes(&[]).is_none());
    assert!(ExNode::from_bytes(&[0u8; 512]).is_some());
}

#[test]
fn extent_basics() {
    assert_eq!(Extent::default(), Extent { offset: 0, length: 0 });
    assert!(Extent::default().is_empty());
    assert!(Extent::new(5, 0).is_empty());
    assert!(!Extent::new(0, 1).is_empty());
}

#[test]
fn words_are_stored_low_byte_first() {
    let bytes = encode_words(&[1, 0x0807060504030201]);
    assert_eq!(bytes, vec![1, 0, 0, 0, 0, 0, 0, 0, 1, 2, 3, 4, 5, 6, 7, 8]);
    assert_eq!(decode_word(&bytes, 0), 1);
    assert_eq!(decode_word(&bytes, 1), 0x0807060504030201);
    assert!(encode_words(&[]).is_empty());
}

/// A node with the extents as a derived `Debug` prints them.
#[derive(Debug)]
#[allow(dead_code)]
struct Printed {
    prev: u64,
    next: u64,
    extents: Vec<Extent>,
}

fn printed(node: &ExNode) -> String {
    let printed = Printed { prev: node.prev, next: node.next, extents: node.present_extents() };
    format!("{:?}", printed).replacen("Printed", "ExNode", 1)
}

#[test]
fn ex_node_debug_text_of_several_extents() {
    let mut node = ExNode::default();
    node.prev = 10;
    node.next = 1234567890;
    node.extents[0] = Extent::new(0, 9);
    node.extents[1] = Extent::new(5, 0);
    node.extents[2] = Extent::new(100, 10);
    node.extents[30] = Extent::new(u64::MAX, 18446744073709551615);
    assert_eq!(
        node.debug_text(),
        "ExNode { prev: 10, next: 1234567890, extents: [Extent { offset: 0, length: 9 }, \
         Extent { offset: 100, length: 10 }, \
         Extent { offset: 18446744073709551615, length: 18446744073709551615 }] }"
    );
}

#[test]
fn ex_node_debug_text_is_what_debug_prints() {
    let mut node = ExNode::default();
    assert_eq!(node.debug_text(), printed(&node));
    for (i, value) in [0u64, 1, 9, 10, 11, 99, 100, 101, 999, 1000, 4096, u64::MAX / 10, u64::MAX]
        .into_iter()
        .enumerate()
    {
        node.prev = value;
        node.next = value / 3;
        node.extents[2 * i] = Extent::new(value, i as u64);
        node.extents[2 * i + 1] = Extent::new(i as u64, value);
        assert_eq!(node.debug_text(), printed(&node));
    }
    let mut full = ExNode::default();
    for i in 0..31 {
        full.extents[i] = Extent::new(1000 * i as u64, 31 - i as u64);
    }
    assert_eq!(full.debug_text(), printed(&full));
}
