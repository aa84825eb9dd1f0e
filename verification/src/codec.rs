//! Snapshots as bytes: lists of 64-bit words, written and read by `bincode`.

use vstd::bytes::{
    lemma_auto_spec_u64_to_from_le_bytes, spec_u64_from_le_bytes, spec_u64_to_le_bytes,
};
use vstd::prelude::*;

verus! {

/// The words of `words`, eight bytes each, low byte first, one after the other.
pub open spec fn words_bytes(words: Seq<u64>) -> Seq<u8>
    decreases words.len(),
{
    if words.len() == 0 {
        Seq::empty()
    } else {
        words_bytes(words.drop_last()) + spec_u64_to_le_bytes(words.last())
    }
}

/// The bytes that stand for a list of words: how many they are, as a word,
/// then the words.
pub open spec fn words_encoding(words: Seq<u64>) -> Seq<u8> {
    spec_u64_to_le_bytes(words.len() as u64) + words_bytes(words)
}

/// The list of words that `bytes` begin with, if they begin with one: after
/// the count come at least as many words as it says. What follows the last
/// word is ignored.
pub open spec fn words_decoding(bytes: Seq<u8>) -> Option<Seq<u64>> {
    if bytes.len() < 8 {
        None
    } else {
        let count = spec_u64_from_le_bytes(bytes.subrange(0, 8));
        if (bytes.len() - 8) / 8 < count {
            None
        } else {
            Some(
                Seq::new(
                    count as nat,
                    |i: int| spec_u64_from_le_bytes(bytes.subrange(8 + 8 * i, 16 + 8 * i)),
                ),
            )
        }
    }
}

/// Calls `bincode::serialize` on a list of words. With the options of that
/// function a list is written as its length in eight bytes, low byte first,
/// followed by its items, each written the same way; writing such a list
/// into memory has no way to fail.
#[verifier::external_body]
pub(crate) fn encode_words(words: &Vec<u64>) -> (bytes: Vec<u8>)
    ensures
        bytes@ == words_encoding(words@),
{
    bincode::serialize(words).unwrap_or_default()
}

/// Calls `bincode::deserialize` for a list of words. It reads the length,
/// then that many items of eight bytes, and fails where the bytes end
/// before; bytes after the last item are allowed.
#[verifier::external_body]
pub(crate) fn decode_words(bytes: &Vec<u8>) -> (words: Option<Vec<u64>>)
    ensures
        words_decoding(bytes@) == match words {
            Some(w) => Some(w@),
            None => None,
        },
{
    bincode::deserialize::<Vec<u64>>(bytes).ok()
}

/// Every word takes eight bytes, and the bytes of word `i` are the eight
/// from byte `8 * i` on.
pub proof fn lemma_words_bytes(words: Seq<u64>, i: int)
    ensures
        words_bytes(words).len() == 8 * words.len(),
        0 <= i < words.len() ==> words_bytes(words).subrange(8 * i, 8 * i + 8)
            == spec_u64_to_le_bytes(words[i]),
    decreases words.len(),
{
    lemma_auto_spec_u64_to_from_le_bytes();
    if words.len() > 0 {
        let front = words.drop_last();
        lemma_words_bytes(front, i);
        let all = words_bytes(words);
        if 0 <= i < words.len() {
            if i < front.len() {
                assert(all.subrange(8 * i, 8 * i + 8) =~= words_bytes(front).subrange(
                    8 * i,
                    8 * i + 8,
                ));
                assert(front[i] == words[i]);
            } else {
                assert(all.subrange(8 * i, 8 * i + 8) =~= spec_u64_to_le_bytes(words.last()));
            }
        }
    }
}

/// Reading back what was written gives the words written, whatever bytes
/// follow them.
pub proof fn lemma_words_round_trip(words: Seq<u64>, rest: Seq<u8>)
    requires
        words.len() <= u64::MAX,
    ensures
        words_decoding(words_encoding(words) + rest) == Some(words),
{
    lemma_auto_spec_u64_to_from_le_bytes();
    lemma_words_bytes(words, 0);
    let head = spec_u64_to_le_bytes(words.len() as u64);
    let body = words_bytes(words);
    let bytes = words_encoding(words) + rest;
    assert(bytes.subrange(0, 8) =~= head);
    let count = spec_u64_from_le_bytes(bytes.subrange(0, 8));
    assert(count == words.len());
    let read = Seq::new(
        count as nat,
        |i: int| spec_u64_from_le_bytes(bytes.subrange(8 + 8 * i, 16 + 8 * i)),
    );
    assert forall|i: int| 0 <= i < words.len() implies read[i] == words[i] by {
        lemma_words_bytes(words, i);
        assert(bytes.subrange(8 + 8 * i, 16 + 8 * i) =~= body.subrange(8 * i, 8 * i + 8));
    }
    assert(read =~= words);
}

} // verus!
