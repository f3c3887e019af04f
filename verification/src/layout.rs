//! The byte layout that blocks share: a block is a row of 64-bit words,
//! each stored as eight bytes, least significant byte first.

use vstd::bytes::{
    lemma_auto_spec_u64_to_from_le_bytes, spec_u64_from_le_bytes, spec_u64_to_le_bytes,
    u64_from_le_bytes, u64_to_le_bytes,
};
use vstd::prelude::*;
use vstd::slice::slice_subrange;

verus! {

/// The bytes of a row of words: byte `j` is byte `j % 8` of word `j / 8`.
pub open spec fn words_to_bytes(words: Seq<u64>) -> Seq<u8> {
    Seq::new(8 * words.len(), |j: int| spec_u64_to_le_bytes(words[j / 8])[j % 8])
}

/// The words that a row of bytes holds: word `k` is read from bytes
/// `8 * k` to `8 * k + 7`. Bytes beyond the last whole word are left out.
pub open spec fn bytes_to_words(bytes: Seq<u8>) -> Seq<u64> {
    Seq::new(
        (bytes.len() / 8) as nat,
        |k: int| spec_u64_from_le_bytes(bytes.subrange(8 * k, 8 * k + 8)),
    )
}

/// Reading back the bytes of a row of words gives the same words.
pub proof fn words_round_trip(words: Seq<u64>)
    ensures
        words_to_bytes(words).len() == 8 * words.len(),
        bytes_to_words(words_to_bytes(words)) == words,
{
    lemma_auto_spec_u64_to_from_le_bytes();
    let bytes = words_to_bytes(words);
    assert forall|k: int| 0 <= k < words.len() implies #[trigger] bytes_to_words(bytes)[k]
        == words[k] by {
        assert(bytes.subrange(8 * k, 8 * k + 8) =~= spec_u64_to_le_bytes(words[k])) by {
            assert forall|t: int| 0 <= t < 8 implies #[trigger] bytes[8 * k + t]
                == spec_u64_to_le_bytes(words[k])[t] by {
                assert((8 * k + t) / 8 == k);
                assert((8 * k + t) % 8 == t);
            }
        }
    }
    assert(bytes_to_words(bytes) =~= words);
}

/// Writing out the words read from a whole number of words gives the same
/// bytes.
pub proof fn bytes_round_trip(bytes: Seq<u8>)
    requires
        bytes.len() % 8 == 0,
    ensures
        bytes_to_words(bytes).len() * 8 == bytes.len(),
        words_to_bytes(bytes_to_words(bytes)) == bytes,
{
    lemma_auto_spec_u64_to_from_le_bytes();
    let words = bytes_to_words(bytes);
    assert forall|j: int| 0 <= j < bytes.len() implies #[trigger] words_to_bytes(words)[j]
        == bytes[j] by {
        let k = j / 8;
        let part = bytes.subrange(8 * k, 8 * k + 8);
        assert(part.len() == 8);
        assert(spec_u64_to_le_bytes(spec_u64_from_le_bytes(part)) == part);
        assert(part[j % 8] == bytes[8 * k + j % 8]);
    }
    assert(words_to_bytes(words) =~= bytes);
}

/// The bytes of `words`.
pub fn encode_words(words: &[u64]) -> (bytes: Vec<u8>)
    ensures
        bytes@ == words_to_bytes(words@),
{
    let mut bytes: Vec<u8> = Vec::new();
    let mut k: usize = 0;
    while k < words.len()
        invariant
            k <= words@.len(),
            bytes@ == words_to_bytes(words@.subrange(0, k as int)),
        decreases words@.len() - k,
    {
        let mut part = u64_to_le_bytes(words[k]);
        proof {
            let before = words@.subrange(0, k as int);
            let after = words@.subrange(0, k + 1);
            assert(bytes@ + part@ =~= words_to_bytes(after)) by {
                assert forall|j: int| 0 <= j < 8 * (k + 1) implies (bytes@ + part@)[j]
                    == #[trigger] words_to_bytes(after)[j] by {
                    if j < 8 * k {
                        assert(before[j / 8] == after[j / 8]);
                    } else {
                        assert(j / 8 == k);
                        assert(j % 8 == j - 8 * k);
                    }
                }
            }
        }
        bytes.append(&mut part);
        k += 1;
    }
    proof {
        assert(words@.subrange(0, k as int) =~= words@);
    }
    bytes
}

/// Word `k` of `bytes`.
pub fn decode_word(bytes: &[u8], k: usize) -> (word: u64)
    requires
        8 * k + 8 <= bytes@.len(),
    ensures
        word == bytes_to_words(bytes@)[k as int],
{
    let len = bytes.len();
    assert(8 * k + 8 <= len);
    let part = slice_subrange(bytes, 8 * k, 8 * k + 8);
    u64_from_le_bytes(part)
}

} // verus!
