//! Lists of 32-bit words in saved states, little-endian.

use crate::bytes::{
    le_bytes, le_value, lemma_le_bytes_len, lemma_le_bytes_of_value, lemma_le_round_trip,
    lemma_le_value_bound, lemma_pow256_values, push_le, read_le,
};
use vstd::prelude::*;

verus! {

/// The bytes of some words, one after another.
pub open spec fn words_bytes(words: Seq<u32>) -> Seq<u8>
    decreases words.len(),
{
    if words.len() == 0 {
        Seq::empty()
    } else {
        words_bytes(words.drop_last()) + le_bytes(words.last() as nat, 4)
    }
}

/// Word `i` of those that stand in `data` from `at` on.
pub open spec fn word_at(data: Seq<u8>, at: int, i: int) -> u32 {
    le_value(data.subrange(at + 4 * i, at + 4 * i + 4)) as u32
}

/// The `n` words that stand in `data` from `at` on.
pub open spec fn words_in(data: Seq<u8>, at: int, n: nat) -> Seq<u32> {
    Seq::new(n, |i: int| word_at(data, at, i))
}

/// Appends a word.
pub fn push_word(out: &mut Vec<u8>, word: u32)
    ensures
        final(out)@ == old(out)@ + le_bytes(word as nat, 4),
{
    push_le(out, word as u64, 4);
}

/// Appends some words.
pub fn push_words(out: &mut Vec<u8>, words: &[u32])
    ensures
        final(out)@ == old(out)@ + words_bytes(words@),
{
    let ghost before = out@;
    let mut i: usize = 0;
    assert(words@.take(0) =~= Seq::empty());
    assert(out@ =~= before + words_bytes(words@.take(0)));
    while i < words.len()
        invariant
            i <= words@.len(),
            out@ == before + words_bytes(words@.take(i as int)),
        decreases words@.len() - i,
    {
        assert(words@.take(i + 1).drop_last() =~= words@.take(i as int));
        push_word(out, words[i]);
        assert(out@ =~= before + words_bytes(words@.take(i + 1)));
        i = i + 1;
    }
    assert(words@.take(i as int) =~= words@);
}

/// Reads word `i` of those that stand in `data` from `at` on.
pub fn read_word(data: &[u8], at: usize, i: usize) -> (word: u32)
    requires
        at + 4 * i + 4 <= data@.len(),
    ensures
        word == word_at(data@, at as int, i as int),
{
    assert(data.len() == data@.len());
    proof {
        lemma_pow256_values();
    }
    read_le(data, at + 4 * i, 4) as u32
}

/// Reads the `n` words that stand in `data` from `at` on.
pub fn read_words(data: &[u8], at: usize, n: usize) -> (words: Vec<u32>)
    requires
        at + 4 * n <= data@.len(),
    ensures
        words@ == words_in(data@, at as int, n as nat),
{
    let mut words: Vec<u32> = Vec::new();
    let mut i: usize = 0;
    while i < n
        invariant
            i <= n,
            at + 4 * n <= data@.len(),
            words@.len() == i,
            forall|k: int| 0 <= k < i ==> words@[k] == word_at(data@, at as int, k),
        decreases n - i,
    {
        words.push(read_word(data, at, i));
        i = i + 1;
    }
    assert(words@ =~= words_in(data@, at as int, n as nat));
    words
}

/// Words are read back from their bytes, whatever stands before and behind them.
pub proof fn lemma_words_round_trip(words: Seq<u32>, before: Seq<u8>, after: Seq<u8>)
    ensures
        words_bytes(words).len() == 4 * words.len(),
        words_in(before + words_bytes(words) + after, before.len() as int, words.len()) == words,
    decreases words.len(),
{
    let data = before + words_bytes(words) + after;
    let at = before.len() as int;
    if words.len() > 0 {
        let start = words_bytes(words.drop_last());
        let end = le_bytes(words.last() as nat, 4);
        lemma_words_round_trip(words.drop_last(), before, end + after);
        lemma_pow256_values();
        lemma_le_bytes_len(words.last() as nat, 4);
        lemma_le_round_trip(words.last() as nat, 4);
        assert(before + start + (end + after) =~= data);
        assert forall|i: int| 0 <= i < words.len() implies word_at(data, at, i) == words[i] by {
            if i < words.len() - 1 {
                assert(words_in(data, at, words.drop_last().len())[i] == words.drop_last()[i]);
            } else {
                assert(data.subrange(at + 4 * i, at + 4 * i + 4) =~= end);
            }
        }
        assert(words_in(data, at, words.len()) =~= words);
    } else {
        assert(words_in(data, at, 0) =~= words);
    }
}

/// The bytes of the words that stand in `data` are those that stand there.
pub proof fn lemma_words_bytes_in(data: Seq<u8>, at: int, n: nat)
    requires
        0 <= at,
        at + 4 * n <= data.len(),
    ensures
        words_bytes(words_in(data, at, n)) == data.subrange(at, at + 4 * n),
    decreases n,
{
    let words = words_in(data, at, n);
    if n > 0 {
        let k = (n - 1) as nat;
        lemma_words_bytes_in(data, at, k);
        assert(words.drop_last() =~= words_in(data, at, k));
        let last = data.subrange(at + 4 * k, at + 4 * k + 4);
        lemma_le_bytes_of_value(last);
        lemma_le_value_bound(last);
        lemma_pow256_values();
        assert(words_bytes(words) =~= data.subrange(at, at + 4 * n));
    } else {
        assert(words_bytes(words) =~= data.subrange(at, at));
    }
}

/// A word in a list is the sum of its four bytes, the first the lowest.
pub proof fn words_stand_low_byte_first(data: Seq<u8>, at: int, i: int)
    requires
        0 <= at,
        0 <= i,
        at + 4 * i + 4 <= data.len(),
    ensures
        word_at(data, at, i) == data[at + 4 * i] + 256 * data[at + 4 * i + 1] + 65_536 * data[at + 4
            * i + 2] + 16_777_216 * data[at + 4 * i + 3],
{
    let part = data.subrange(at + 4 * i, at + 4 * i + 4);
    crate::bytes::lowest_byte_comes_first(part);
    lemma_le_value_bound(part);
    lemma_pow256_values();
}

} // verus!
