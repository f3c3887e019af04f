//! Overflow nodes: a page of extents with links to its neighbours.

use crate::extent::Extent;
use crate::layout::{bytes_to_words, decode_word, encode_words, words_to_bytes};
use vstd::prelude::*;

verus! {

/// The sum of the lengths of `extents`.
pub open spec fn total_length(extents: Seq<Extent>) -> nat
    decreases extents.len(),
{
    if extents.len() == 0 {
        0
    } else {
        total_length(extents.drop_last()) + extents.last().length as nat
    }
}

/// The words of a node: `prev`, `next`, then offset and length of each
/// extent in turn.
pub open spec fn node_words(prev: u64, next: u64, extents: Seq<Extent>) -> Seq<u64> {
    Seq::new(
        2 + 2 * extents.len(),
        |k: int|
            if k == 0 {
                prev
            } else if k == 1 {
                next
            } else if k % 2 == 0 {
                extents[k / 2 - 1].offset
            } else {
                extents[k / 2 - 1].length
            },
    )
}

/// An extra node: up to 31 extents, and the blocks of the nodes before and
/// after it in its chain (0 where there is none).
#[derive(Clone, Copy)]
pub struct ExNode {
    pub prev: u64,
    pub next: u64,
    pub extents: [Extent; 31],
}

impl ExNode {
    /// The sum of the lengths of the node's extents.
    pub open spec fn spec_size(&self) -> nat {
        total_length(self.extents@)
    }

    /// The node as bytes on disk.
    pub open spec fn spec_bytes(&self) -> Seq<u8> {
        words_to_bytes(node_words(self.prev, self.next, self.extents@))
    }

    /// A node without neighbours whose slots are all unused.
    pub fn default() -> (r: ExNode)
        ensures
            r.prev == 0,
            r.next == 0,
            forall|i: int| 0 <= i < 31 ==> r.extents[i] == (Extent { offset: 0, length: 0 }),
            r.spec_size() == 0,
    {
        let r = ExNode { prev: 0, next: 0, extents: [Extent::default();31] };
        proof {
            total_length_of_unused(r.extents@);
        }
        r
    }

    /// The sum of the lengths of the node's extents, or `None` where the sum
    /// does not fit in 64 bits.
    pub fn checked_size(&self) -> (r: Option<u64>)
        ensures
            r == if self.spec_size() <= u64::MAX {
                Some(self.spec_size() as u64)
            } else {
                None
            },
    {
        let mut size: u64 = 0;
        let mut i: usize = 0;
        while i < 31
            invariant
                i <= 31,
                size == total_length(self.extents@.subrange(0, i as int)),
            decreases 31 - i,
        {
            proof {
                let next = self.extents@.subrange(0, i + 1);
                assert(next.drop_last() =~= self.extents@.subrange(0, i as int));
                total_length_grows(self.extents@, i + 1, 31);
            }
            match size.checked_add(self.extents[i].length) {
                Some(sum) => {
                    size = sum;
                },
                None => {
                    proof {
                        assert(self.extents@.subrange(0, 31) =~= self.extents@);
                    }
                    return None;
                },
            }
            i += 1;
        }
        proof {
            assert(self.extents@.subrange(0, 31) =~= self.extents@);
        }
        Some(size)
    }

    /// The sum of the lengths of the node's extents.
    pub fn size(&self) -> (r: u64)
        requires
            self.spec_size() <= u64::MAX,
        ensures
            r == self.spec_size(),
    {
        match self.checked_size() {
            Some(size) => size,
            None => 0,
        }
    }

    /// The extents in use, in slot order: those whose length is not 0.
    pub fn present_extents(&self) -> (r: Vec<Extent>)
        ensures
            r@ == self.extents@.filter(|e: Extent| e.length > 0),
    {
        let mut present: Vec<Extent> = Vec::new();
        let mut i: usize = 0;
        while i < 31
            invariant
                i <= 31,
                present@ == self.extents@.subrange(0, i as int).filter(|e: Extent| e.length > 0),
            decreases 31 - i,
        {
            let extent = self.extents[i];
            proof {
                let f = |e: Extent| e.length > 0;
                let before = self.extents@.subrange(0, i as int);
                let after = self.extents@.subrange(0, i + 1);
                assert(after.drop_last() =~= before);
                assert(after.last() == extent);
                reveal(Seq::filter);
                assert(after.filter(f) == if f(extent) {
                    before.filter(f).push(extent)
                } else {
                    before.filter(f)
                });
            }
            if extent.length > 0 {
                present.push(extent);
            }
            i += 1;
        }
        proof {
            assert(self.extents@.subrange(0, 31) =~= self.extents@);
        }
        present
    }

    /// The node as text for diagnosis: its links and, in slot order, the
    /// extents in use. Unused slots are left out.
    pub fn debug_text(&self) -> (text: String)
        ensures
            text@ == node_text(self.prev, self.next, self.extents@.filter(|e: Extent| e.length > 0)),
    {
        let present = self.present_extents();
        let mut text = String::from_str("ExNode { prev: ");
        push_decimal(&mut text, self.prev);
        text.append(", next: ");
        push_decimal(&mut text, self.next);
        text.append(", extents: [");
        let ghost start = text@;
        let mut i: usize = 0;
        while i < present.len()
            invariant
                i <= present@.len(),
                text@ == start + extents_text(present@.subrange(0, i as int)),
            decreases present@.len() - i,
        {
            let ghost before = text@;
            let ghost done = present@.subrange(0, i as int);
            if i > 0 {
                text.append(", ");
            }
            push_extent(&mut text, &present[i]);
            proof {
                let next = present@.subrange(0, i + 1);
                assert(next.drop_last() =~= done);
                assert(next.last() == present@[i as int]);
                assert(text@ =~= start + extents_text(next));
            }
            i += 1;
        }
        proof {
            assert(present@.subrange(0, i as int) =~= present@);
        }
        text.append("] }");
        text
    }

    /// The node in words.
    fn to_words(&self) -> (words: Vec<u64>)
        ensures
            words@ == node_words(self.prev, self.next, self.extents@),
    {
        let mut words: Vec<u64> = Vec::new();
        words.push(self.prev);
        words.push(self.next);
        let mut i: usize = 0;
        while i < 31
            invariant
                i <= 31,
                words@ == node_words(self.prev, self.next, self.extents@.subrange(0, i as int)),
            decreases 31 - i,
        {
            let extent = self.extents[i];
            proof {
                let before = self.extents@.subrange(0, i as int);
                let after = self.extents@.subrange(0, i + 1);
                assert(words@.push(extent.offset).push(extent.length) =~= node_words(
                    self.prev,
                    self.next,
                    after,
                )) by {
                    assert forall|k: int| 0 <= k < 2 + 2 * (i + 1) implies words@.push(
                        extent.offset,
                    ).push(extent.length)[k] == #[trigger] node_words(self.prev, self.next, after)[k] by {
                        if 2 <= k < 2 + 2 * i {
                            assert(before[k / 2 - 1] == after[k / 2 - 1]);
                        }
                    }
                }
            }
            words.push(extent.offset);
            words.push(extent.length);
            i += 1;
        }
        proof {
            assert(self.extents@.subrange(0, 31) =~= self.extents@);
        }
        words
    }

    /// The node as the 512 bytes that stand for it on disk.
    pub fn to_bytes(&self) -> (bytes: Vec<u8>)
        ensures
            bytes@ == self.spec_bytes(),
            bytes@.len() == 512,
    {
        let words = self.to_words();
        encode_words(words.as_slice())
    }

    /// The node that `bytes` stand for, or `None` unless there are exactly
    /// 512 of them.
    pub fn from_bytes(bytes: &[u8]) -> (r: Option<ExNode>)
        ensures
            r.is_some() == (bytes@.len() == 512),
            r matches Some(node) ==> node.spec_bytes() == bytes@,
    {
        if bytes.len() != 512 {
            return None;
        }
        let mut node = ExNode {
            prev: decode_word(bytes, 0),
            next: decode_word(bytes, 1),
            extents: [Extent::default();31],
        };
        let mut i: usize = 0;
        while i < 31
            invariant
                i <= 31,
                bytes@.len() == 512,
                node.prev == bytes_to_words(bytes@)[0],
                node.next == bytes_to_words(bytes@)[1],
                forall|j: int|
                    0 <= j < i ==> (#[trigger] node.extents[j]) == (Extent {
                        offset: bytes_to_words(bytes@)[2 * j + 2],
                        length: bytes_to_words(bytes@)[2 * j + 3],
                    }),
            decreases 31 - i,
        {
            let extent = Extent::new(decode_word(bytes, 2 * i + 2), decode_word(bytes, 2 * i + 3));
            node.extents[i] = extent;
            i += 1;
        }
        proof {
            let words = node_words(node.prev, node.next, node.extents@);
            assert(words =~= bytes_to_words(bytes@)) by {
                assert forall|k: int| 0 <= k < 64 implies words[k] == #[trigger] bytes_to_words(
                    bytes@,
                )[k] by {
                    if k >= 2 {
                        let j = k / 2 - 1;
                        assert(node.extents[j].offset == bytes_to_words(bytes@)[2 * j + 2]);
                    }
                }
            }
            crate::layout::bytes_round_trip(bytes@);
        }
        Some(node)
    }
}

/// The text of one decimal digit.
pub open spec fn digit_text(digit: nat) -> Seq<char> {
    if digit == 0 {
        "0"@
    } else if digit == 1 {
        "1"@
    } else if digit == 2 {
        "2"@
    } else if digit == 3 {
        "3"@
    } else if digit == 4 {
        "4"@
    } else if digit == 5 {
        "5"@
    } else if digit == 6 {
        "6"@
    } else if digit == 7 {
        "7"@
    } else if digit == 8 {
        "8"@
    } else {
        "9"@
    }
}

/// The text of a number: its decimal digits, the highest first, without
/// leading zeros.
pub open spec fn decimal_text(n: nat) -> Seq<char>
    decreases n,
{
    if n < 10 {
        digit_text(n)
    } else {
        decimal_text(n / 10) + digit_text(n % 10)
    }
}

/// The text of an extent: its name, and in braces its offset and its
/// length, each behind the name of its field.
pub open spec fn extent_text(extent: Extent) -> Seq<char> {
    "Extent { offset: "@ + decimal_text(extent.offset as nat) + ", length: "@ + decimal_text(
        extent.length as nat,
    ) + " }"@
}

/// The text of a row of extents: the text of each in turn, with a comma and
/// a blank between two of them.
pub open spec fn extents_text(extents: Seq<Extent>) -> Seq<char>
    decreases extents.len(),
{
    if extents.len() == 0 {
        Seq::empty()
    } else if extents.len() == 1 {
        extent_text(extents[0])
    } else {
        extents_text(extents.drop_last()) + ", "@ + extent_text(extents.last())
    }
}

/// The text of a node with the links `prev` and `next` and the extents
/// `extents`: the name of the node, and in braces the two links and, in
/// square brackets, the extents, each behind the name of its field.
pub open spec fn node_text(prev: u64, next: u64, extents: Seq<Extent>) -> Seq<char> {
    "ExNode { prev: "@ + decimal_text(prev as nat) + ", next: "@ + decimal_text(next as nat)
        + ", extents: ["@ + extents_text(extents) + "] }"@
}

/// Adds the decimal digits of `n` to the end of `text`.
fn push_decimal(text: &mut String, n: u64)
    ensures
        final(text)@ == old(text)@ + decimal_text(n as nat),
    decreases n,
{
    if n >= 10 {
        push_decimal(text, n / 10);
    }
    let digit = n % 10;
    let digit_str = if digit == 0 {
        "0"
    } else if digit == 1 {
        "1"
    } else if digit == 2 {
        "2"
    } else if digit == 3 {
        "3"
    } else if digit == 4 {
        "4"
    } else if digit == 5 {
        "5"
    } else if digit == 6 {
        "6"
    } else if digit == 7 {
        "7"
    } else if digit == 8 {
        "8"
    } else {
        "9"
    };
    assert(digit_str@ == digit_text(digit as nat));
    text.append(digit_str);
    assert(text@ =~= old(text)@ + decimal_text(n as nat));
}

/// Adds the text of `extent` to the end of `text`.
fn push_extent(text: &mut String, extent: &Extent)
    ensures
        final(text)@ == old(text)@ + extent_text(*extent),
{
    text.append("Extent { offset: ");
    push_decimal(text, extent.offset);
    text.append(", length: ");
    push_decimal(text, extent.length);
    text.append(" }");
    assert(text@ =~= old(text)@ + extent_text(*extent));
}

/// The lengths of unused slots add up to 0.
pub proof fn total_length_of_unused(extents: Seq<Extent>)
    requires
        forall|i: int| 0 <= i < extents.len() ==> (#[trigger] extents[i]).length == 0,
    ensures
        total_length(extents) == 0,
    decreases extents.len(),
{
    if extents.len() > 0 {
        total_length_of_unused(extents.drop_last());
    }
}

/// Where every slot but `slot` is unused, the sum is the length in `slot`.
pub proof fn total_length_of_one(extents: Seq<Extent>, slot: int)
    requires
        0 <= slot < extents.len(),
        forall|i: int| 0 <= i < extents.len() && i != slot ==> (#[trigger] extents[i]).length == 0,
    ensures
        total_length(extents) == extents[slot].length,
    decreases extents.len(),
{
    if slot == extents.len() - 1 {
        total_length_of_unused(extents.drop_last());
    } else {
        total_length_of_one(extents.drop_last(), slot);
    }
}

/// The sum over the first `a` extents is at most the sum over the first `b`.
proof fn total_length_grows(extents: Seq<Extent>, a: int, b: int)
    requires
        0 <= a <= b <= extents.len(),
    ensures
        total_length(extents.subrange(0, a)) <= total_length(extents.subrange(0, b)),
    decreases b - a,
{
    if a < b {
        total_length_grows(extents, a, b - 1);
        assert(extents.subrange(0, b).drop_last() =~= extents.subrange(0, b - 1));
    }
}

/// Decoding the bytes of a node gives the node's links and extents back.
pub proof fn node_bytes_round_trip(node: ExNode)
    ensures
        node.spec_bytes().len() == 512,
        bytes_to_words(node.spec_bytes()) == node_words(node.prev, node.next, node.extents@),
{
    crate::layout::words_round_trip(node_words(node.prev, node.next, node.extents@));
}

} // verus!
