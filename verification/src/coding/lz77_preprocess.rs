//! LZ77 with a minimum match of three bytes and one step of lazy matching.
//!
//! Layout: `[original_size: u32 LE] [sequence]...`, where a sequence is
//! `[token] [literal length extension] [literals] [offset: u16 LE] [match length extension]`.
//! The token's high nibble is the literal length, its low nibble the match length
//! minus three; a nibble of 15 is continued by extension bytes up to one below 255.
//! The last sequence may end after its literals.

use crate::bytes::{
    le_bytes, le_value, lemma_le_bytes_len, lemma_le_round_trip, lemma_pow256_values, push_all,
    push_le, read_le,
};
use crate::error::{same_bytes, AetherError, ErrorModel, Result};
use crate::text::{decimal, text_around_numbers};
use vstd::prelude::*;
use vstd::slice::slice_subrange;
use vstd::string::*;

verus! {

/// Matches reach less than this far back (64 KiB).
pub const WINDOW_SIZE: usize = 65536;

/// The shortest match.
pub const MIN_MATCH: usize = 3;

/// The longest match.
pub const MAX_MATCH: usize = 65538;

/// Number of hash values.
pub const HASH_SIZE: usize = 65536;

/// How many candidates are compared for one match.
pub const MAX_CHAIN: usize = 4096;

/// A match of this length ends the search.
pub const NICE_MATCH: usize = 258;

/// The largest input (64 MiB).
pub const MAX_LZ77_INPUT_SIZE: usize = 67_108_864;

/// Marks the end of a chain of positions.
const EMPTY: u32 = 0xFFFF_FFFF;

// Matches.

/// The multiplicative hash of the three bytes at `pos`.
#[verifier::opaque]
pub open spec fn hash3_of(data: Seq<u8>, pos: int) -> int {
    let v = data[pos] * 65536 + data[pos + 1] * 256 + data[pos + 2];
    ((v * 2654435761) % 0x1_0000_0000) / 65536
}

/// How many bytes from `k` on the strings at `p` and `pos` have in common, counted to
/// `limit` from their starts.
pub open spec fn common_from(data: Seq<u8>, p: int, pos: int, k: int, limit: int) -> int
    decreases limit - k,
{
    if k < limit && data[p + k] == data[pos + k] {
        common_from(data, p, pos, k + 1, limit)
    } else {
        k
    }
}

/// The longest match that may be made at `pos`.
pub open spec fn match_limit(data: Seq<u8>, pos: int) -> int {
    if data.len() - pos < MAX_MATCH {
        data.len() - pos
    } else {
        MAX_MATCH as int
    }
}

/// The best match, as offset and length, for `pos` among the positions from `p` down,
/// after `tried` candidates gave `best`. Candidates are the positions inside the window
/// with the hash of `pos`, nearest first; only a longer match replaces one found before.
pub open spec fn search_from(data: Seq<u8>, pos: int, p: int, tried: int, best: (int, int)) -> (
    int,
    int,
)
    decreases p + 1,
{
    if p < 0 || pos - p >= WINDOW_SIZE || tried >= MAX_CHAIN {
        best
    } else if hash3_of(data, p) != hash3_of(data, pos) {
        search_from(data, pos, p - 1, tried, best)
    } else {
        let limit = match_limit(data, pos);
        let len = common_from(data, p, pos, 0, limit);
        if len > best.1 {
            if len >= NICE_MATCH || len == limit {
                (pos - p, len)
            } else {
                search_from(data, pos, p - 1, tried + 1, (pos - p, len))
            }
        } else {
            search_from(data, pos, p - 1, tried + 1, best)
        }
    }
}

/// The best match for `pos` among the positions before `end`; a length below
/// [`MIN_MATCH`] means that there is none.
pub open spec fn best_match(data: Seq<u8>, end: int, pos: int) -> (int, int) {
    search_from(data, pos, end - 1, 0, (0, 2))
}

/// The last position before `end` with the hash `h`, or `-1`.
spec fn last_with_hash(data: Seq<u8>, h: int, end: int) -> int
    decreases end,
{
    if end <= 0 {
        -1
    } else if hash3_of(data, end - 1) == h {
        end - 1
    } else {
        last_with_hash(data, h, end - 1)
    }
}

proof fn lemma_last_with_hash(data: Seq<u8>, h: int, end: int)
    requires
        0 <= end,
    ensures
        -1 <= last_with_hash(data, h, end) < end,
        last_with_hash(data, h, end) >= 0 ==> hash3_of(data, last_with_hash(data, h, end)) == h,
    decreases end,
{
    if end > 0 {
        lemma_last_with_hash(data, h, end - 1);
    }
}

/// Positions with another hash do not take part in a search.
proof fn lemma_search_skips(data: Seq<u8>, pos: int, end: int, tried: int, best: (int, int))
    requires
        0 <= end,
    ensures
        search_from(data, pos, end - 1, tried, best) == search_from(
            data,
            pos,
            last_with_hash(data, hash3_of(data, pos), end),
            tried,
            best,
        ),
    decreases end,
{
    if end > 0 {
        lemma_last_with_hash(data, hash3_of(data, pos), end);
        lemma_last_with_hash(data, hash3_of(data, pos), end - 1);
        lemma_search_skips(data, pos, end - 1, tried, best);
    }
}

proof fn lemma_common_from(data: Seq<u8>, p: int, pos: int, k: int, limit: int)
    requires
        0 <= k <= limit,
    ensures
        k <= common_from(data, p, pos, k, limit) <= limit,
        forall|i: int|
            k <= i < common_from(data, p, pos, k, limit) ==> #[trigger] data[pos + i] == data[p
                + i],
    decreases limit - k,
{
    if k < limit && data[p + k] == data[pos + k] {
        lemma_common_from(data, p, pos, k + 1, limit);
    }
}

/// A match that a search gives is one: its bytes are those at the position it refers to.
pub proof fn lemma_search_sound(data: Seq<u8>, pos: int, p: int, tried: int, best: (int, int))
    requires
        p < pos < data.len(),
        best.1 >= 3 ==> {
            &&& 0 < best.0 <= pos
            &&& best.0 < WINDOW_SIZE
            &&& best.1 <= match_limit(data, pos)
            &&& forall|i: int|
                0 <= i < best.1 ==> #[trigger] data[pos + i] == data[pos - best.0 + i]
        },
        best.1 >= 2,
    ensures
        ({
            let r = search_from(data, pos, p, tried, best);
            &&& r.1 >= 2
            &&& r.1 >= 3 ==> {
                &&& 0 < r.0 <= pos
                &&& r.0 < WINDOW_SIZE
                &&& r.1 <= match_limit(data, pos)
                &&& forall|i: int|
                    0 <= i < r.1 ==> #[trigger] data[pos + i] == data[pos - r.0 + i]
            }
        }),
    decreases p + 1,
{
    if p < 0 || pos - p >= WINDOW_SIZE || tried >= MAX_CHAIN {
    } else if hash3_of(data, p) != hash3_of(data, pos) {
        lemma_search_sound(data, pos, p - 1, tried, best);
    } else {
        let limit = match_limit(data, pos);
        let len = common_from(data, p, pos, 0, limit);
        lemma_common_from(data, p, pos, 0, limit);
        if len > best.1 {
            assert forall|i: int| 0 <= i < len implies #[trigger] data[pos + i] == data[pos - (pos
                - p) + i] by {}
            if !(len >= NICE_MATCH || len == limit) {
                lemma_search_sound(data, pos, p - 1, tried + 1, (pos - p, len));
            }
        } else {
            lemma_search_sound(data, pos, p - 1, tried + 1, best);
        }
    }
}

fn hash3(data: &[u8], pos: usize) -> (h: usize)
    requires
        pos + 2 < data@.len(),
    ensures
        h == hash3_of(data@, pos as int),
        h < HASH_SIZE,
{
    proof {
        reveal(hash3_of);
    }
    assert(data.len() == data@.len());
    let v: u32 = data[pos] as u32 * 65536 + data[pos + 1] as u32 * 256 + data[pos + 2] as u32;
    (v.wrapping_mul(2654435761) / 65536) as usize
}

/// The positions seen so far, chained by hash.
struct MatchFinder {
    head: Vec<u32>,
    prev: Vec<u32>,
}

/// The position of a chain entry, or `-1` at the end.
spec fn chain_position(entry: u32) -> int {
    if entry == EMPTY {
        -1
    } else {
        entry as int
    }
}

/// The chain entry of `p` is the position before it with the same hash.
spec fn linked(prev: Seq<u32>, data: Seq<u8>, p: int) -> bool {
    chain_position(prev[p % WINDOW_SIZE as int]) == last_with_hash(data, hash3_of(data, p), p)
}

impl MatchFinder {
    /// The chains hold the positions of `data` before `end`.
    spec fn holds(&self, data: Seq<u8>, end: int) -> bool {
        &&& self.head@.len() == HASH_SIZE
        &&& self.prev@.len() == WINDOW_SIZE
        &&& 0 <= end <= MAX_LZ77_INPUT_SIZE
        &&& forall|h: int|
            0 <= h < HASH_SIZE ==> chain_position(#[trigger] self.head@[h]) == last_with_hash(
                data,
                h,
                end,
            )
        &&& forall|p: int|
            0 <= p < end && end - p <= WINDOW_SIZE ==> #[trigger] linked(self.prev@, data, p)
    }

    fn new(data: &[u8]) -> (r: MatchFinder)
        ensures
            r.holds(data@, 0),
    {
        MatchFinder { head: vec![EMPTY;HASH_SIZE], prev: vec![EMPTY;WINDOW_SIZE] }
    }

    fn insert(&mut self, data: &[u8], pos: usize, hash: usize)
        requires
            old(self).holds(data@, pos as int),
            pos < MAX_LZ77_INPUT_SIZE,
            hash == hash3_of(data@, pos as int),
            hash < HASH_SIZE,
        ensures
            final(self).holds(data@, pos + 1),
    {
        let latest: u32 = self.head[hash];
        self.prev[pos % WINDOW_SIZE] = latest;
        self.head[hash] = pos as u32;
        proof {
            assert forall|p: int|
                0 <= p < pos + 1 && pos + 1 - p <= WINDOW_SIZE implies #[trigger] linked(
                self.prev@,
                data@,
                p,
            ) by {
                if p < pos {
                    assert(linked(old(self).prev@, data@, p));
                    assert(p % 65536 != pos % 65536);
                }
            }
        }
    }

    /// The best match for `pos` among the positions held.
    fn find_best(&self, data: &[u8], pos: usize, hash: usize, Ghost(end): Ghost<int>) -> (r: Option<
        (u16, usize),
    >)
        requires
            self.holds(data@, end),
            end <= pos <= end + 1,
            pos + 2 < data@.len(),
            hash == hash3_of(data@, pos as int),
            hash < HASH_SIZE,
        ensures
            match r {
                Some((offset, len)) => len >= MIN_MATCH && best_match(data@, end, pos as int) == (
                    offset as int,
                    len as int,
                ),
                None => best_match(data@, end, pos as int).1 < MIN_MATCH,
            },
    {
        let mut best_len: usize = MIN_MATCH - 1;
        let mut best_offset: u16 = 0;
        let mut chain_pos: u32 = self.head[hash];
        let mut chain_count: usize = 0;
        assert(data.len() == data@.len());
        let max_len: usize = if data.len() - pos < MAX_MATCH {
            data.len() - pos
        } else {
            MAX_MATCH
        };
        proof {
            lemma_search_skips(data@, pos as int, end, 0, (0, 2));
            lemma_last_with_hash(data@, hash as int, end);
        }
        while chain_pos != EMPTY && chain_count < MAX_CHAIN
            invariant_except_break
                best_len < max_len,
                best_match(data@, end, pos as int) == search_from(
                    data@,
                    pos as int,
                    chain_position(chain_pos),
                    chain_count as int,
                    (best_offset as int, best_len as int),
                ),
            invariant
                self.holds(data@, end),
                end <= pos <= end + 1,
                pos + 2 < data@.len(),
                data@.len() <= usize::MAX,
                hash == hash3_of(data@, pos as int),
                hash < HASH_SIZE,
                max_len == match_limit(data@, pos as int),
                best_len >= 2,
                chain_count <= MAX_CHAIN,
                chain_pos != EMPTY ==> chain_pos < end && hash3_of(data@, chain_pos as int) == hash,
            ensures
                best_match(data@, end, pos as int) == (best_offset as int, best_len as int),
            decreases MAX_CHAIN - chain_count,
        {
            let ref_pos: usize = chain_pos as usize;
            if pos - ref_pos >= WINDOW_SIZE {
                break;
            }
            let offset: u16 = (pos - ref_pos) as u16;
            proof {
                lemma_common_from(data@, ref_pos as int, pos as int, 0, max_len as int);
            }
            if data[ref_pos + best_len] == data[pos + best_len] {
                let mut len: usize = 0;
                while len < max_len && data[ref_pos + len] == data[pos + len]
                    invariant
                        len <= max_len,
                        ref_pos < pos,
                        pos + max_len <= data@.len() <= usize::MAX,
                        common_from(data@, ref_pos as int, pos as int, 0, max_len as int)
                            == common_from(
                            data@,
                            ref_pos as int,
                            pos as int,
                            len as int,
                            max_len as int,
                        ),
                    decreases max_len - len,
                {
                    len = len + 1;
                }
                if len > best_len {
                    best_len = len;
                    best_offset = offset;
                    if len >= NICE_MATCH || len == max_len {
                        break;
                    }
                }
            } else {
                assert(data@[pos + best_len] != data@[ref_pos + best_len]);
            }
            proof {
                let next = last_with_hash(data@, hash as int, ref_pos as int);
                lemma_last_with_hash(data@, hash as int, ref_pos as int);
                lemma_search_skips(
                    data@,
                    pos as int,
                    ref_pos as int,
                    chain_count + 1,
                    (best_offset as int, best_len as int),
                );
                assert(linked(self.prev@, data@, ref_pos as int));
            }
            chain_pos = self.prev[ref_pos % WINDOW_SIZE];
            chain_count = chain_count + 1;
        }
        if best_len >= MIN_MATCH {
            Some((best_offset, best_len))
        } else {
            None
        }
    }
}

// Sequences.

/// A length above 14 continued: its excess over 15 in bytes of 255 and one below.
pub open spec fn extension(n: nat) -> Seq<u8>
    decreases n,
{
    if n < 255 {
        seq![n as u8]
    } else {
        seq![255u8] + extension((n - 255) as nat)
    }
}

/// The extension bytes of the length `n`.
pub open spec fn length_extension(n: nat) -> Seq<u8> {
    if n >= 15 {
        extension((n - 15) as nat)
    } else {
        Seq::empty()
    }
}

/// The token nibble of the length `n`.
pub open spec fn nibble(n: nat) -> nat {
    if n < 15 {
        n
    } else {
        15
    }
}

/// Literals followed by a match.
pub open spec fn sequence_bytes(literals: Seq<u8>, offset: int, len: int) -> Seq<u8> {
    let more = (len - MIN_MATCH) as nat;
    seq![(nibble(literals.len()) * 16 + nibble(more)) as u8] + (length_extension(literals.len()) + (
    literals + (seq![(offset % 256) as u8, (offset / 256) as u8] + length_extension(more))))
}

/// Literals that end the data.
pub open spec fn final_bytes(literals: Seq<u8>) -> Seq<u8> {
    seq![(nibble(literals.len()) * 16) as u8] + (length_extension(literals.len()) + literals)
}

/// Whether the match at `pos` is taken. It is left for the next position where that one
/// has a match longer by more than one, unless a match was left just before.
pub open spec fn takes_match(data: Seq<u8>, pos: int, deferred: bool) -> bool {
    let current = best_match(data, pos, pos).1;
    let next = best_match(data, pos, pos + 1).1;
    current >= MIN_MATCH && (deferred || pos + 3 >= data.len() || next < MIN_MATCH || next
        <= current + 1)
}

/// The sequences for `data` from `pos` on, with the literals from `start` on not yet written.
pub open spec fn sequences(data: Seq<u8>, pos: int, start: int, deferred: bool) -> Seq<u8>
    decreases data.len() - pos,
{
    if pos + 2 >= data.len() {
        if start < data.len() {
            final_bytes(data.skip(start))
        } else {
            Seq::empty()
        }
    } else if takes_match(data, pos, deferred) {
        let (offset, len) = best_match(data, pos, pos);
        proof {
            lemma_search_sound(data, pos, pos - 1, 0, (0, 2));
        }
        sequence_bytes(data.subrange(start, pos), offset, len) + sequences(
            data,
            pos + len,
            pos + len,
            false,
        )
    } else {
        sequences(data, pos + 1, start, best_match(data, pos, pos).1 >= MIN_MATCH)
    }
}

/// The encoding of `data`.
pub open spec fn lz77_encoding(data: Seq<u8>) -> Seq<u8> {
    le_bytes(data.len(), 4) + sequences(data, 0, 0, false)
}

fn push_length_extension(output: &mut Vec<u8>, n: usize)
    ensures
        final(output)@ == old(output)@ + length_extension(n as nat),
{
    if n >= 15 {
        let mut rem: usize = n - 15;
        let ghost all = extension(rem as nat);
        while rem >= 255
            invariant
                old(output)@ + all == output@ + extension(rem as nat),
            decreases rem,
        {
            let ghost before = output@;
            output.push(255);
            rem = rem - 255;
            assert(before + (seq![255u8] + extension(rem as nat)) =~= output@ + extension(
                rem as nat,
            ));
        }
        output.push(rem as u8);
    }
    assert(output@ =~= old(output)@ + length_extension(n as nat));
}

fn capped_nibble(n: usize) -> (r: u8)
    ensures
        r == nibble(n as nat),
{
    if n < 15 {
        n as u8
    } else {
        15
    }
}

fn emit_sequence(output: &mut Vec<u8>, literals: &[u8], offset: u16, match_len: usize)
    requires
        match_len >= MIN_MATCH,
    ensures
        final(output)@ == old(output)@ + sequence_bytes(
            literals@,
            offset as int,
            match_len as int,
        ),
{
    let match_minus3: usize = match_len - MIN_MATCH;
    let lit_nibble: u8 = capped_nibble(literals.len());
    let match_nibble: u8 = capped_nibble(match_minus3);
    output.push(lit_nibble * 16 + match_nibble);
    push_length_extension(output, literals.len());
    push_all(output, literals);
    output.push((offset % 256) as u8);
    output.push((offset / 256) as u8);
    push_length_extension(output, match_minus3);
    assert(output@ =~= old(output)@ + sequence_bytes(literals@, offset as int, match_len as int));
}

fn emit_final_literals(output: &mut Vec<u8>, literals: &[u8])
    ensures
        final(output)@ == old(output)@ + final_bytes(literals@),
{
    let lit_nibble: u8 = capped_nibble(literals.len());
    output.push(lit_nibble * 16);
    push_length_extension(output, literals.len());
    push_all(output, literals);
    assert(output@ =~= old(output)@ + final_bytes(literals@));
}

/// Encodes `data`; gives nothing where that does not make it smaller, or where `data`
/// has less than three bytes or more than [`MAX_LZ77_INPUT_SIZE`].
pub fn lz77_encode(data: &[u8]) -> (r: Option<Vec<u8>>)
    ensures
        match r {
            Some(v) => MIN_MATCH <= data@.len() <= MAX_LZ77_INPUT_SIZE && v@ == lz77_encoding(data@)
                && v@.len() < data@.len(),
            None => data@.len() < MIN_MATCH || data@.len() > MAX_LZ77_INPUT_SIZE || lz77_encoding(
                data@,
            ).len() >= data@.len(),
        },
{
    if data.len() < MIN_MATCH {
        return None;
    }
    if data.len() > MAX_LZ77_INPUT_SIZE {
        return None;
    }
    let mut finder = MatchFinder::new(data);
    let mut output: Vec<u8> = Vec::with_capacity(data.len());
    push_le(&mut output, data.len() as u64, 4);
    let mut pos: usize = 0;
    let mut lit_start: usize = 0;
    let mut deferred: bool = false;
    assert(output@ =~= le_bytes(data@.len(), 4));
    while pos + 2 < data.len()
        invariant
            MIN_MATCH <= data@.len() <= MAX_LZ77_INPUT_SIZE,
            lit_start <= pos <= data@.len(),
            pos + 2 < data@.len() ==> finder.holds(data@, pos as int),
            lz77_encoding(data@) == output@ + sequences(
                data@,
                pos as int,
                lit_start as int,
                deferred,
            ),
        decreases data@.len() - pos,
    {
        let ghost before = output@;
        let hash: usize = hash3(data, pos);
        let current_match = finder.find_best(data, pos, hash, Ghost(pos as int));
        let mut use_match: bool = false;
        if let Some((_, cur_len)) = current_match {
            if deferred {
                use_match = true;
            } else if pos + 3 < data.len() {
                let next_hash: usize = hash3(data, pos + 1);
                if let Some((_, next_len)) = finder.find_best(
                    data,
                    pos + 1,
                    next_hash,
                    Ghost(pos as int),
                ) {
                    proof {
                        lemma_search_sound(data@, pos as int, pos - 1, 0, (0, 2));
                    }
                    use_match = next_len <= cur_len + 1;
                } else {
                    use_match = true;
                }
            } else {
                use_match = true;
            }
        }
        assert(use_match == takes_match(data@, pos as int, deferred));
        proof {
            lemma_search_sound(data@, pos as int, pos - 1, 0, (0, 2));
        }
        match current_match {
            Some((offset, match_len)) if use_match => {
                let literals = slice_subrange(data, lit_start, pos);
                emit_sequence(&mut output, literals, offset, match_len);
                let end: usize = pos + match_len;
                let mut i: usize = pos;
                while i < end && i + 2 < data.len()
                    invariant
                        i <= end <= data@.len() <= MAX_LZ77_INPUT_SIZE,
                        finder.holds(data@, i as int),
                    decreases end - i,
                {
                    let h: usize = hash3(data, i);
                    finder.insert(data, i, h);
                    i = i + 1;
                }
                proof {
                    let seq = sequence_bytes(literals@, offset as int, match_len as int);
                    let tail = sequences(data@, end as int, end as int, false);
                    assert(before + (seq + tail) =~= output@ + tail);
                }
                pos = end;
                lit_start = end;
                deferred = false;
            },
            _ => {
                finder.insert(data, pos, hash);
                pos = pos + 1;
                deferred = current_match.is_some();
            },
        }
    }
    if lit_start < data.len() {
        let remaining = slice_subrange(data, lit_start, data.len());
        assert(remaining@ =~= data@.skip(lit_start as int));
        emit_final_literals(&mut output, remaining);
    } else {
        assert(output@ =~= output@ + Seq::<u8>::empty());
    }
    if output.len() < data.len() {
        Some(output)
    } else {
        None
    }
}

// Decoding.

/// What reading the extension of a length gives.
pub enum LengthModel {
    /// The length, and how many bytes its extension has.
    Length { len: nat, read: nat },
    /// The input ends inside the extension.
    End,
    /// The length grew to `len`, more than is left.
    TooLong { len: nat },
}

/// Reads the extension at the start of `rest` onto a length of `len`, with room for `room`.
pub open spec fn read_extension(rest: Seq<u8>, len: nat, room: nat) -> LengthModel
    decreases rest.len(),
{
    if rest.len() == 0 {
        LengthModel::End
    } else {
        let next = (len + rest[0]) as nat;
        if next > room {
            LengthModel::TooLong { len: next }
        } else if rest[0] < 255 {
            LengthModel::Length { len: next, read: 1 }
        } else {
            match read_extension(rest.drop_first(), next, room) {
                LengthModel::Length { len, read } => LengthModel::Length { len, read: read + 1 },
                other => other,
            }
        }
    }
}

/// The length with the token nibble `nibble`, counted from `base`; only a nibble of 15
/// is extended.
pub open spec fn read_length(rest: Seq<u8>, nibble: nat, base: nat, room: nat) -> LengthModel {
    if nibble == 15 {
        read_extension(rest, 15 + base, room)
    } else {
        LengthModel::Length { len: nibble + base, read: 0 }
    }
}

/// A length is read from bytes that are there.
pub proof fn lemma_read_extension(rest: Seq<u8>, len: nat, room: nat)
    ensures
        read_extension(rest, len, room) matches LengthModel::Length { read, .. } ==> read
            <= rest.len(),
    decreases rest.len(),
{
    if rest.len() > 0 {
        lemma_read_extension(rest.drop_first(), (len + rest[0]) as nat, room);
    }
}

/// `out` followed by `len` bytes, each equal to the one `offset` before it.
pub open spec fn match_copied(out: Seq<u8>, offset: int, len: nat) -> Seq<u8>
    decreases len,
{
    if len == 0 {
        out
    } else {
        match_copied(out.push(out[out.len() - offset]), offset, (len - 1) as nat)
    }
}

/// The end of decoding: the output must have the size announced.
pub open spec fn lz77_finished(out: Seq<u8>, size: nat) -> std::result::Result<
    Seq<u8>,
    ErrorModel,
> {
    if out.len() == size {
        Ok(out)
    } else {
        Err(
            ErrorModel::Decompression(
                "LZ77: output size "@ + decimal(out.len()) + ", expected "@ + decimal(size) + ""@,
            ),
        )
    }
}

/// What a length that grew too long is reported as.
pub open spec fn too_long_text(what: Seq<char>, len: nat, room: nat) -> Seq<char> {
    what + decimal(len) + " exceeds remaining output capacity "@ + decimal(room) + ""@
}

/// What reading the literals at the start of `rest` gives: the output with them, and how
/// many bytes they take.
#[verifier::opaque]
pub open spec fn literals_read(
    rest: Seq<u8>,
    nibble: nat,
    out: Seq<u8>,
    size: nat,
) -> std::result::Result<(Seq<u8>, nat), ErrorModel> {
    let room = (size - out.len()) as nat;
    match read_length(rest, nibble, 0, room) {
        LengthModel::End => Err(
            ErrorModel::Decompression("LZ77: unexpected end in lit_len ext"@),
        ),
        LengthModel::TooLong { len } => Err(
            ErrorModel::Decompression(too_long_text("LZ77: lit_len "@, len, room)),
        ),
        LengthModel::Length { len, read } => if read + len > rest.len() {
            Err(ErrorModel::Decompression("LZ77: not enough literal data"@))
        } else {
            Ok((out + rest.subrange(read as int, (read + len) as int), read + len))
        },
    }
}

/// What reading the match at the start of `rest` gives: the output with it, and how many
/// bytes it takes.
#[verifier::opaque]
pub open spec fn match_read(rest: Seq<u8>, nibble: nat, out: Seq<u8>, size: nat) -> std::result::Result<
    (Seq<u8>, nat),
    ErrorModel,
> {
    let room = (size - out.len()) as nat;
    let offset = rest[0] + 256 * rest[1];
    if rest.len() < 2 {
        Err(ErrorModel::Decompression("LZ77: missing offset bytes"@))
    } else if offset == 0 || offset > out.len() {
        Err(
            ErrorModel::Decompression(
                "LZ77: invalid offset "@ + decimal(offset as nat) + " at output pos "@ + decimal(
                    out.len(),
                ) + ""@,
            ),
        )
    } else {
        match read_length(rest.skip(2), nibble, MIN_MATCH as nat, room) {
            LengthModel::End => Err(
                ErrorModel::Decompression("LZ77: unexpected end in match_len ext"@),
            ),
            LengthModel::TooLong { len } => Err(
                ErrorModel::Decompression(too_long_text("LZ77: match_len "@, len, room)),
            ),
            LengthModel::Length { len, read } => Ok((match_copied(out, offset, len), 2 + read)),
        }
    }
}

/// What is read is there to be read.
pub proof fn lemma_parts_read(rest: Seq<u8>, nibble: nat, out: Seq<u8>, size: nat)
    ensures
        literals_read(rest, nibble, out, size) matches Ok((_, read)) ==> read <= rest.len(),
        match_read(rest, nibble, out, size) matches Ok((_, read)) ==> read <= rest.len(),
{
    reveal(literals_read);
    reveal(match_read);
    let room = (size - out.len()) as nat;
    lemma_read_extension(rest, 15, room);
    lemma_read_extension(rest.skip(2), (15 + MIN_MATCH) as nat, room);
}

/// What decoding the sequences `rest` gives after `out`, for a size of `size`.
pub open spec fn lz77_decode_rest(rest: Seq<u8>, out: Seq<u8>, size: nat) -> std::result::Result<
    Seq<u8>,
    ErrorModel,
>
    decreases rest.len(),
{
    if out.len() >= size {
        lz77_finished(out, size)
    } else if rest.len() == 0 {
        Err(ErrorModel::Decompression("LZ77: unexpected end of data"@))
    } else {
        let token = rest[0] as nat;
        let body = rest.drop_first();
        proof {
            lemma_parts_read(body, token / 16, out, size);
        }
        match literals_read(body, token / 16, out, size) {
            Err(e) => Err(e),
            Ok((out, read)) => if out.len() >= size {
                lz77_finished(out, size)
            } else {
                let body = body.skip(read as int);
                proof {
                    lemma_parts_read(body, token % 16, out, size);
                }
                match match_read(body, token % 16, out, size) {
                    Err(e) => Err(e),
                    Ok((out, read)) => lz77_decode_rest(body.skip(read as int), out, size),
                }
            },
        }
    }
}

/// What decoding `encoded` gives for the size `expected`.
pub open spec fn lz77_decode_outcome(encoded: Seq<u8>, expected: nat) -> std::result::Result<
    Seq<u8>,
    ErrorModel,
> {
    let size = le_value(encoded.subrange(0, 4));
    if encoded.len() < 4 {
        Err(ErrorModel::Decompression("LZ77 data too short"@))
    } else if size != expected {
        Err(
            ErrorModel::Decompression(
                "LZ77 size mismatch: header says "@ + decimal(size) + ", expected "@ + decimal(
                    expected,
                ) + ""@,
            ),
        )
    } else if size > MAX_LZ77_INPUT_SIZE {
        Err(
            ErrorModel::Decompression(
                "LZ77 decode size "@ + decimal(size) + " exceeds safety limit "@ + decimal(
                    MAX_LZ77_INPUT_SIZE as nat,
                ) + ""@,
            ),
        )
    } else {
        lz77_decode_rest(encoded.skip(4), Seq::empty(), size)
    }
}

/// A length read from the input.
enum LengthRead {
    Length { len: usize, next: usize },
    End,
    TooLong { len: usize },
}

/// The length model after `k` bytes were read before.
spec fn after_bytes(m: LengthModel, k: nat) -> LengthModel {
    match m {
        LengthModel::Length { len, read } => LengthModel::Length { len, read: read + k },
        other => other,
    }
}

/// Whether a length read at `start` is the one that the model says.
spec fn same_length(r: LengthRead, m: LengthModel, start: int) -> bool {
    match (r, m) {
        (LengthRead::Length { len, next }, LengthModel::Length { len: l, read }) => len == l && next
            == start + read,
        (LengthRead::End, LengthModel::End) => true,
        (LengthRead::TooLong { len }, LengthModel::TooLong { len: l }) => len == l,
        _ => false,
    }
}

/// Reads the length with the token nibble `nibble`, counted from `base`.
fn read_length_at(encoded: &[u8], start: usize, nibble: u8, base: usize, room: usize) -> (r:
    LengthRead)
    requires
        start <= encoded@.len(),
        nibble < 16,
        base <= MIN_MATCH,
        room <= MAX_LZ77_INPUT_SIZE,
    ensures
        same_length(
            r,
            read_length(encoded@.skip(start as int), nibble as nat, base as nat, room as nat),
            start as int,
        ),
        r matches LengthRead::Length { len, next } ==> start <= next <= encoded@.len() && (len
            <= room || len < 18),
{
    if nibble != 15 {
        return LengthRead::Length { len: nibble as usize + base, next: start };
    }
    let mut len: usize = 15 + base;
    let mut pos: usize = start;
    let ghost all = read_extension(encoded@.skip(start as int), (15 + base) as nat, room as nat);
    loop
        invariant
            start <= pos <= encoded@.len(),
            room <= MAX_LZ77_INPUT_SIZE,
            len <= room || len <= 18,
            nibble == 15,
            all == read_length(
                encoded@.skip(start as int),
                nibble as nat,
                base as nat,
                room as nat,
            ),
            all == after_bytes(
                read_extension(encoded@.skip(pos as int), len as nat, room as nat),
                (pos - start) as nat,
            ),
        decreases encoded@.len() - pos,
    {
        if pos >= encoded.len() {
            return LengthRead::End;
        }
        let ext: usize = encoded[pos] as usize;
        assert(encoded@.skip(pos as int).drop_first() =~= encoded@.skip(pos + 1));
        pos = pos + 1;
        len = len + ext;
        if len > room {
            return LengthRead::TooLong { len };
        }
        if ext < 255 {
            return LengthRead::Length { len, next: pos };
        }
    }
}

/// The parts of a token byte.
fn token_nibbles(token: u8) -> (r: (u8, u8))
    ensures
        r.0 == token / 16,
        r.1 == token % 16,
{
    assert(token >> 4 == token / 16 && token & 0x0F == token % 16) by (bit_vector);
    (token >> 4, token & 0x0F)
}

/// Appends `len` bytes, each equal to the one `offset` before it.
fn copy_match(output: &mut Vec<u8>, offset: usize, len: usize)
    requires
        0 < offset <= old(output)@.len(),
    ensures
        final(output)@ == match_copied(old(output)@, offset as int, len as nat),
{
    let ghost copied = match_copied(output@, offset as int, len as nat);
    let mut k: usize = 0;
    while k < len
        invariant
            k <= len,
            0 < offset <= output@.len(),
            copied == match_copied(output@, offset as int, (len - k) as nat),
        decreases len - k,
    {
        let byte: u8 = output[output.len() - offset];
        output.push(byte);
        k = k + 1;
    }
}

/// Whether a part was read at `start` as the model says.
spec fn same_part(
    r: Result<usize>,
    out: Seq<u8>,
    m: std::result::Result<(Seq<u8>, nat), ErrorModel>,
    start: int,
) -> bool {
    match (r, m) {
        (Ok(next), Ok((o, read))) => next == start + read && out == o,
        (Err(e), Err(em)) => e@ == em,
        _ => false,
    }
}

/// Reads the literals at `start` and appends them; gives the position after them.
fn read_literals(encoded: &[u8], start: usize, nibble: u8, output: &mut Vec<u8>, size: usize) -> (r:
    Result<usize>)
    requires
        start <= encoded@.len(),
        nibble < 16,
        old(output)@.len() < size <= MAX_LZ77_INPUT_SIZE,
    ensures
        same_part(
            r,
            final(output)@,
            literals_read(encoded@.skip(start as int), nibble as nat, old(output)@, size as nat),
            start as int,
        ),
        r matches Ok(next) ==> start <= next <= encoded@.len(),
{
    proof {
        reveal(literals_read);
    }
    let room: usize = size - output.len();
    match read_length_at(encoded, start, nibble, 0, room) {
        LengthRead::End => Err(
            AetherError::Decompression("LZ77: unexpected end in lit_len ext".to_string()),
        ),
        LengthRead::TooLong { len } => Err(
            AetherError::Decompression(
                text_around_numbers(
                    "LZ77: lit_len ",
                    len as u64,
                    " exceeds remaining output capacity ",
                    room as u64,
                    "",
                ),
            ),
        ),
        LengthRead::Length { len, next } => {
            if len > encoded.len() - next {
                return Err(AetherError::Decompression("LZ77: not enough literal data".to_string()));
            }
            push_all(output, slice_subrange(encoded, next, next + len));
            assert(encoded@.skip(start as int).subrange(next - start, next + len - start)
                =~= encoded@.subrange(next as int, next + len));
            Ok(next + len)
        },
    }
}

/// Reads the match at `start` and copies it; gives the position after it.
fn read_match(encoded: &[u8], start: usize, nibble: u8, output: &mut Vec<u8>, size: usize) -> (r:
    Result<usize>)
    requires
        start <= encoded@.len(),
        nibble < 16,
        old(output)@.len() < size <= MAX_LZ77_INPUT_SIZE,
    ensures
        same_part(
            r,
            final(output)@,
            match_read(encoded@.skip(start as int), nibble as nat, old(output)@, size as nat),
            start as int,
        ),
        r matches Ok(next) ==> start <= next <= encoded@.len(),
{
    proof {
        reveal(match_read);
    }
    if encoded.len() - start < 2 {
        return Err(AetherError::Decompression("LZ77: missing offset bytes".to_string()));
    }
    let offset: usize = encoded[start] as usize + 256 * (encoded[start + 1] as usize);
    assert(encoded@.skip(start as int).skip(2) =~= encoded@.skip(start + 2));
    if offset == 0 || offset > output.len() {
        return Err(
            AetherError::Decompression(
                text_around_numbers(
                    "LZ77: invalid offset ",
                    offset as u64,
                    " at output pos ",
                    output.len() as u64,
                    "",
                ),
            ),
        );
    }
    let room: usize = size - output.len();
    match read_length_at(encoded, start + 2, nibble, MIN_MATCH, room) {
        LengthRead::End => Err(
            AetherError::Decompression("LZ77: unexpected end in match_len ext".to_string()),
        ),
        LengthRead::TooLong { len } => Err(
            AetherError::Decompression(
                text_around_numbers(
                    "LZ77: match_len ",
                    len as u64,
                    " exceeds remaining output capacity ",
                    room as u64,
                    "",
                ),
            ),
        ),
        LengthRead::Length { len, next } => {
            copy_match(output, offset, len);
            Ok(next)
        },
    }
}

/// Decodes data that [`lz77_encode`] encoded.
pub fn lz77_decode(encoded: &[u8], expected_size: usize) -> (r: Result<Vec<u8>>)
    ensures
        same_bytes(r, lz77_decode_outcome(encoded@, expected_size as nat)),
{
    if encoded.len() < 4 {
        return Err(AetherError::Decompression("LZ77 data too short".to_string()));
    }
    proof {
        lemma_pow256_values();
    }
    let header: u64 = read_le(encoded, 0, 4);
    if header != expected_size as u64 {
        return Err(
            AetherError::Decompression(
                text_around_numbers(
                    "LZ77 size mismatch: header says ",
                    header,
                    ", expected ",
                    expected_size as u64,
                    "",
                ),
            ),
        );
    }
    if expected_size > MAX_LZ77_INPUT_SIZE {
        return Err(
            AetherError::Decompression(
                text_around_numbers(
                    "LZ77 decode size ",
                    expected_size as u64,
                    " exceeds safety limit ",
                    MAX_LZ77_INPUT_SIZE as u64,
                    "",
                ),
            ),
        );
    }
    let mut output: Vec<u8> = Vec::new();
    let mut pos: usize = 4;
    let ghost outcome = lz77_decode_outcome(encoded@, expected_size as nat);
    while output.len() < expected_size
        invariant
            4 <= pos <= encoded@.len(),
            expected_size <= MAX_LZ77_INPUT_SIZE,
            outcome == lz77_decode_outcome(encoded@, expected_size as nat),
            outcome == lz77_decode_rest(
                encoded@.skip(pos as int),
                output@,
                expected_size as nat,
            ),
        decreases encoded@.len() - pos,
    {
        let ghost rest = encoded@.skip(pos as int);
        if pos >= encoded.len() {
            return Err(AetherError::Decompression("LZ77: unexpected end of data".to_string()));
        }
        let (high, low) = token_nibbles(encoded[pos]);
        let body: usize = pos + 1;
        assert(rest.drop_first() =~= encoded@.skip(body as int));
        let after: usize = match read_literals(encoded, body, high, &mut output, expected_size) {
            Ok(next) => next,
            Err(e) => {
                return Err(e);
            },
        };
        assert(encoded@.skip(body as int).skip(after - body) =~= encoded@.skip(after as int));
        if output.len() >= expected_size {
            return finished(output, expected_size);
        }
        let next: usize = match read_match(encoded, after, low, &mut output, expected_size) {
            Ok(next) => next,
            Err(e) => {
                return Err(e);
            },
        };
        assert(encoded@.skip(after as int).skip(next - after) =~= encoded@.skip(next as int));
        pos = next;
    }
    finished(output, expected_size)
}

/// Checks the size of a complete output.
fn finished(output: Vec<u8>, size: usize) -> (r: Result<Vec<u8>>)
    ensures
        same_bytes(r, lz77_finished(output@, size as nat)),
{
    if output.len() != size {
        return Err(
            AetherError::Decompression(
                text_around_numbers(
                    "LZ77: output size ",
                    output.len() as u64,
                    ", expected ",
                    size as u64,
                    "",
                ),
            ),
        );
    }
    Ok(output)
}

// Decoding gives back what was encoded.

/// An extension is read back, whatever follows it.
proof fn lemma_extension_round_trip(n: nat, tail: Seq<u8>, len: nat, room: nat)
    requires
        len + n <= room,
    ensures
        read_extension(extension(n) + tail, len, room) == (LengthModel::Length {
            len: len + n,
            read: extension(n).len(),
        }),
    decreases n,
{
    let bytes = extension(n) + tail;
    if n >= 255 {
        let rest = extension((n - 255) as nat);
        assert(bytes.drop_first() =~= rest + tail);
        lemma_extension_round_trip((n - 255) as nat, tail, len + 255, room);
    }
}

proof fn lemma_length_round_trip(n: nat, tail: Seq<u8>, base: nat, room: nat)
    requires
        n + base <= room,
    ensures
        read_length(length_extension(n) + tail, nibble(n), base, room) == (LengthModel::Length {
            len: n + base,
            read: length_extension(n).len(),
        }),
{
    if n >= 15 {
        lemma_extension_round_trip((n - 15) as nat, tail, 15 + base, room);
    }
}

/// Copying a match extends the decoded part of the data by it.
proof fn lemma_match_round_trip(data: Seq<u8>, pos: int, offset: int, len: nat)
    requires
        0 < offset <= pos,
        pos + len <= data.len(),
        forall|i: int| 0 <= i < len ==> #[trigger] data[pos + i] == data[pos - offset + i],
    ensures
        match_copied(data.take(pos), offset, len) == data.take(pos + len),
    decreases len,
{
    if len > 0 {
        assert(data[pos + 0] == data[pos - offset + 0]);
        assert(data.take(pos).push(data[pos]) =~= data.take(pos + 1));
        assert forall|i: int| 0 <= i < len - 1 implies #[trigger] data[pos + 1 + i] == data[pos + 1
            - offset + i] by {
            assert(data[pos + (i + 1)] == data[pos - offset + (i + 1)]);
        }
        lemma_match_round_trip(data, pos + 1, offset, (len - 1) as nat);
    }
}

/// Literals are read back, whatever follows them.
proof fn lemma_literals_round_trip(literals: Seq<u8>, tail: Seq<u8>, out: Seq<u8>, size: nat)
    requires
        out.len() + literals.len() <= size,
    ensures
        literals_read(
            length_extension(literals.len()) + (literals + tail),
            nibble(literals.len()),
            out,
            size,
        ) == Ok::<(Seq<u8>, nat), ErrorModel>(
            (out + literals, length_extension(literals.len()).len() + literals.len()),
        ),
{
    reveal(literals_read);
    let n = literals.len();
    let rest = length_extension(n) + (literals + tail);
    let e = length_extension(n).len();
    lemma_length_round_trip(n, literals + tail, 0, (size - out.len()) as nat);
    assert(rest.subrange(e as int, (e + n) as int) =~= literals);
}

/// A match is read back, whatever follows it.
proof fn lemma_offset_round_trip(data: Seq<u8>, pos: int, offset: int, len: nat, tail: Seq<u8>)
    requires
        0 < offset <= pos,
        offset < WINDOW_SIZE,
        MIN_MATCH <= len,
        pos + len <= data.len(),
        forall|i: int| 0 <= i < len ==> #[trigger] data[pos + i] == data[pos - offset + i],
    ensures
        match_read(
            seq![(offset % 256) as u8, (offset / 256) as u8] + (length_extension(
                (len - MIN_MATCH) as nat,
            ) + tail),
            nibble((len - MIN_MATCH) as nat),
            data.take(pos),
            data.len(),
        ) == Ok::<(Seq<u8>, nat), ErrorModel>(
            (data.take(pos + len), 2 + length_extension((len - MIN_MATCH) as nat).len()),
        ),
{
    reveal(match_read);
    let more = (len - MIN_MATCH) as nat;
    let body = length_extension(more) + tail;
    let rest = seq![(offset % 256) as u8, (offset / 256) as u8] + body;
    assert(rest.skip(2) =~= body);
    assert(rest[0] + 256 * rest[1] == offset);
    lemma_length_round_trip(more, tail, MIN_MATCH as nat, (data.len() - pos) as nat);
    lemma_match_round_trip(data, pos, offset, len);
}

/// Decoding a sequence extends the decoded part of the data to the end of its match.
proof fn lemma_sequence_step(
    data: Seq<u8>,
    start: int,
    pos: int,
    offset: int,
    len: nat,
    after: Seq<u8>,
)
    requires
        0 <= start <= pos,
        0 < offset <= pos,
        offset < WINDOW_SIZE,
        MIN_MATCH <= len,
        pos + len <= data.len(),
        forall|i: int| 0 <= i < len ==> #[trigger] data[pos + i] == data[pos - offset + i],
    ensures
        lz77_decode_rest(
            sequence_bytes(data.subrange(start, pos), offset, len as int) + after,
            data.take(start),
            data.len(),
        ) == lz77_decode_rest(after, data.take(pos + len), data.len()),
{
    let out = data.take(start);
    let literals = data.subrange(start, pos);
    let rest = sequence_bytes(literals, offset, len as int) + after;
    let n = literals.len();
    let more = (len - MIN_MATCH) as nat;
    let tail = seq![(offset % 256) as u8, (offset / 256) as u8] + (length_extension(more) + after);
    let body = length_extension(n) + (literals + tail);
    assert(rest.drop_first() =~= body);
    let token = rest[0] as nat;
    assert(token == nibble(n) * 16 + nibble(more));
    lemma_literals_round_trip(literals, tail, out, data.len());
    assert(out + literals =~= data.take(pos));
    assert(body.skip((length_extension(n).len() + n) as int) =~= tail);
    lemma_offset_round_trip(data, pos, offset, len, after);
    assert(tail.skip((2 + length_extension(more).len()) as int) =~= after);
}

/// Decoding the last literals completes the data.
proof fn lemma_final_step(data: Seq<u8>, start: int)
    requires
        0 <= start < data.len(),
    ensures
        lz77_decode_rest(final_bytes(data.skip(start)), data.take(start), data.len()) == Ok::<
            Seq<u8>,
            ErrorModel,
        >(data),
{
    let literals = data.skip(start);
    let rest = final_bytes(literals);
    lemma_literals_round_trip(literals, Seq::empty(), data.take(start), data.len());
    assert(rest.drop_first() =~= length_extension(literals.len()) + (literals
        + Seq::<u8>::empty()));
    assert(rest[0] as nat / 16 == nibble(literals.len()));
    assert(data.take(start) + literals =~= data);
}

proof fn lemma_sequences_round_trip(data: Seq<u8>, pos: int, start: int, deferred: bool)
    requires
        0 <= start <= pos <= data.len(),
    ensures
        lz77_decode_rest(
            sequences(data, pos, start, deferred),
            data.take(start),
            data.len(),
        ) == Ok::<Seq<u8>, ErrorModel>(data),
    decreases data.len() - pos,
{
    if pos + 2 >= data.len() {
        if start < data.len() {
            lemma_final_step(data, start);
        } else {
            assert(data.take(start) =~= data);
        }
    } else if takes_match(data, pos, deferred) {
        let (offset, len) = best_match(data, pos, pos);
        lemma_search_sound(data, pos, pos - 1, 0, (0, 2));
        lemma_sequences_round_trip(data, pos + len, pos + len, false);
        lemma_sequence_step(
            data,
            start,
            pos,
            offset,
            len as nat,
            sequences(data, pos + len, pos + len, false),
        );
    } else {
        lemma_sequences_round_trip(
            data,
            pos + 1,
            start,
            best_match(data, pos, pos).1 >= MIN_MATCH,
        );
    }
}

/// Decoding the encoding of `data` gives `data`.
pub proof fn lz77_round_trips(data: Seq<u8>)
    requires
        data.len() <= MAX_LZ77_INPUT_SIZE,
    ensures
        lz77_decode_outcome(lz77_encoding(data), data.len()) == Ok::<Seq<u8>, ErrorModel>(data),
{
    lemma_pow256_values();
    lemma_le_round_trip(data.len(), 4);
    let head = le_bytes(data.len(), 4);
    let encoded = lz77_encoding(data);
    assert(encoded.subrange(0, 4) =~= head);
    assert(encoded.skip(4) =~= sequences(data, 0, 0, false));
    assert(data.take(0) =~= Seq::<u8>::empty());
    lemma_sequences_round_trip(data, 0, 0, false);
}

// What the search finds, and what is won by it.

/// How many positions between `q` and `end`, both left out, have the hash of `pos`.
pub open spec fn nearer_with_hash(data: Seq<u8>, pos: int, q: int, end: int) -> nat
    decreases end - q,
{
    if end <= q + 1 {
        0
    } else {
        nearer_with_hash(data, pos, q, end - 1) + if hash3_of(data, end - 1) == hash3_of(data, pos) {
            1nat
        } else {
            0nat
        }
    }
}

/// The `len` bytes at `q` and at `pos` are the same.
pub open spec fn same_bytes_at(data: Seq<u8>, q: int, pos: int, len: int) -> bool {
    forall|i: int| 0 <= i < len ==> #[trigger] data[pos + i] == data[q + i]
}

/// A search never ends with less than it had.
proof fn lemma_search_grows(data: Seq<u8>, pos: int, p: int, tried: int, best: (int, int))
    ensures
        search_from(data, pos, p, tried, best).1 >= best.1,
    decreases p + 1,
{
    if p < 0 || pos - p >= WINDOW_SIZE || tried >= MAX_CHAIN {
    } else if hash3_of(data, p) != hash3_of(data, pos) {
        lemma_search_grows(data, pos, p - 1, tried, best);
    } else {
        let limit = match_limit(data, pos);
        let len = common_from(data, p, pos, 0, limit);
        if len > best.1 {
            if !(len >= NICE_MATCH || len == limit) {
                lemma_search_grows(data, pos, p - 1, tried + 1, (pos - p, len));
            }
        } else {
            lemma_search_grows(data, pos, p - 1, tried + 1, best);
        }
    }
}

proof fn lemma_common_at_least(data: Seq<u8>, p: int, pos: int, k: int, limit: int, len: int)
    requires
        0 <= k <= len <= limit,
        same_bytes_at(data, p, pos, len),
    ensures
        common_from(data, p, pos, k, limit) >= len,
    decreases len - k,
{
    if k < len {
        assert(data[pos + k] == data[p + k]);
        lemma_common_at_least(data, p, pos, k + 1, limit, len);
    } else {
        lemma_common_from(data, p, pos, k, limit);
    }
}

proof fn lemma_same_hash(data: Seq<u8>, q: int, pos: int)
    requires
        same_bytes_at(data, q, pos, 3),
    ensures
        hash3_of(data, q) == hash3_of(data, pos),
{
    reveal(hash3_of);
    assert(data[pos + 0] == data[q + 0]);
    assert(data[pos + 1] == data[q + 1]);
    assert(data[pos + 2] == data[q + 2]);
}

proof fn lemma_search_finds(
    data: Seq<u8>,
    pos: int,
    p: int,
    tried: int,
    best: (int, int),
    q: int,
    len: int,
)
    requires
        0 <= q <= p < pos,
        pos - q < 65_536,
        3 <= len <= match_limit(data, pos),
        same_bytes_at(data, q, pos, len),
        0 <= tried,
        tried + nearer_with_hash(data, pos, q, p + 1) < 4096,
    ensures
        search_from(data, pos, p, tried, best).1 >= len || search_from(
            data,
            pos,
            p,
            tried,
            best,
        ).1 >= 258,
    decreases p + 1,
{
    let limit = match_limit(data, pos);
    let common = common_from(data, p, pos, 0, limit);
    if p == q {
        assert(same_bytes_at(data, q, pos, 3)) by {
            assert forall|i: int| 0 <= i < 3 implies #[trigger] data[pos + i] == data[q + i] by {}
        }
        lemma_same_hash(data, q, pos);
        lemma_common_at_least(data, q, pos, 0, limit, len);
        lemma_search_grows(data, pos, p - 1, tried + 1, (pos - p, common));
        lemma_search_grows(data, pos, p - 1, tried + 1, best);
    } else if hash3_of(data, p) != hash3_of(data, pos) {
        lemma_search_finds(data, pos, p - 1, tried, best, q, len);
    } else if common > best.1 {
        if !(common >= NICE_MATCH || common == limit) {
            lemma_search_finds(data, pos, p - 1, tried + 1, (pos - p, common), q, len);
        }
    } else {
        lemma_search_finds(data, pos, p - 1, tried + 1, best, q, len);
    }
}

/// The search is complete: where `len` bytes, three at least, stand at an earlier position
/// less than 64 KiB back as they stand at `pos`, and fewer than 4096 positions in between
/// have the same hash, a match is found that is as long, or has 258 bytes at least.
pub proof fn matches_are_found(data: Seq<u8>, end: int, pos: int, q: int, len: int)
    requires
        0 <= q < end <= pos,
        pos - q < 65_536,
        3 <= len <= 65_538,
        pos + len <= data.len(),
        same_bytes_at(data, q, pos, len),
        nearer_with_hash(data, pos, q, end) < 4096,
    ensures
        best_match(data, end, pos).1 >= len || best_match(data, end, pos).1 >= 258,
{
    lemma_search_finds(data, pos, end - 1, 0, (0, 2), q, len);
}

/// Positions that are less than 4097 back are always looked at, whatever the bytes.
pub proof fn near_positions_are_looked_at(data: Seq<u8>, pos: int, q: int, end: int)
    requires
        q < end,
        end - q <= 4096,
    ensures
        nearer_with_hash(data, pos, q, end) < 4096,
{
    lemma_nearer_bound(data, pos, q, end);
}

proof fn lemma_nearer_bound(data: Seq<u8>, pos: int, q: int, end: int)
    requires
        q < end,
    ensures
        nearer_with_hash(data, pos, q, end) <= end - q - 1,
    decreases end - q,
{
    if end > q + 1 {
        lemma_nearer_bound(data, pos, q, end - 1);
    }
}

/// What is found is a match: its bytes stand as far back as it says, less than 64 KiB, and
/// it goes no further than the data.
pub proof fn found_matches_are_right(data: Seq<u8>, end: int, pos: int)
    requires
        0 <= end <= pos < data.len(),
        best_match(data, end, pos).1 >= 3,
    ensures
        ({
            let (offset, len) = best_match(data, end, pos);
            &&& 0 < offset <= pos
            &&& offset < 65_536
            &&& 3 <= len <= 65_538
            &&& pos + len <= data.len()
            &&& same_bytes_at(data, pos - offset, pos, len)
        }),
{
    lemma_search_sound(data, pos, end - 1, 0, (0, 2));
}

/// A match that was found is used, there or one byte on: it is left only for a match at the
/// next byte that is longer by two at least, and never twice in a row.
pub proof fn found_matches_are_used(data: Seq<u8>, pos: int, deferred: bool)
    requires
        0 <= pos,
        pos + 2 < data.len(),
        best_match(data, pos, pos).1 >= 3,
    ensures
        !takes_match(data, pos, deferred) ==> !deferred && best_match(data, pos, pos + 1).1
            >= best_match(data, pos, pos).1 + 2 && best_match(data, pos, pos + 1).1 >= 3,
        takes_match(data, pos, true),
{
}

/// Small multiples of the multiplier stay away from multiples of 2 to the power of 32: the
/// two numbers are nearly in the golden ratio.
proof fn lemma_hash_step(d: int, q: int)
    requires
        1 <= d <= 255,
    ensures
        d * 2654435761 - q * 0x1_0000_0000 >= 65_536 || d * 2654435761 - q * 0x1_0000_0000
            <= -65_536,
{
    let a = 233 * d - 377 * q;
    let b = 233 * q - 144 * d;
    assert(d == 233 * a + 377 * b);
    assert(d * 2654435761 - q * 0x1_0000_0000 == a * 8241689 - b * 5098071);
}

/// The hash tells strings apart that differ in their third byte alone, so that positions with
/// the same hash are mostly those worth looking at.
pub proof fn hashes_tell_last_bytes_apart(data: Seq<u8>, p: int, pos: int)
    requires
        data[p] == data[pos],
        data[p + 1] == data[pos + 1],
        data[p + 2] != data[pos + 2],
    ensures
        hash3_of(data, p) != hash3_of(data, pos),
{
    let (a, b) = if data[p + 2] < data[pos + 2] {
        (p, pos)
    } else {
        (pos, p)
    };
    let v = data[a] * 65536 + data[a + 1] * 256 + data[a + 2];
    let w = data[b] * 65536 + data[b + 1] * 256 + data[b + 2];
    lemma_products_differ(v, w);
    reveal(hash3_of);
}

proof fn lemma_products_differ(v: int, w: int)
    requires
        1 <= w - v <= 255,
    ensures
        ((v * 2654435761) % 0x1_0000_0000) / 65536 != ((w * 2654435761) % 0x1_0000_0000) / 65536,
{
    let x = v * 2654435761;
    let y = w * 2654435761;
    let i = x / 0x1_0000_0000;
    let j = y / 0x1_0000_0000;
    lemma_hash_step(w - v, j - i);
    assert(x % 0x1_0000_0000 == x - i * 0x1_0000_0000);
    assert(y % 0x1_0000_0000 == y - j * 0x1_0000_0000);
}

/// From `q` on the data repeats what stands `d` bytes before, and the search gets there.
pub open spec fn repeats(data: Seq<u8>, q: int, d: int) -> bool {
    &&& 0 < d <= q <= data.len()
    &&& d < 65_536
    &&& forall|i: int| q <= i < data.len() ==> #[trigger] data[i] == data[i - d]
    &&& forall|pos: int|
        q <= pos < data.len() ==> #[trigger] nearer_with_hash(data, pos, pos - d, pos) < 4096
}

/// What literals take: themselves, and the bytes that extend their length.
spec fn literal_cost(n: nat) -> nat {
    n + length_extension(n).len()
}

proof fn lemma_extension_len(n: nat)
    ensures
        extension(n).len() == n / 255 + 1,
    decreases n,
{
    if n >= 255 {
        lemma_extension_len((n - 255) as nat);
    }
}

proof fn lemma_length_extension(n: nat)
    ensures
        length_extension(n).len() == if n >= 15 {
            (n - 15) / 255 + 1
        } else {
            0
        },
        15 * length_extension(n).len() <= n,
        length_extension(n + 1).len() <= length_extension(n).len() + 1,
        length_extension(n).len() <= n / 255 + 1,
{
    if n >= 15 {
        lemma_extension_len((n - 15) as nat);
        lemma_extension_len((n + 1 - 15) as nat);
    } else if n + 1 >= 15 {
        lemma_extension_len((n + 1 - 15) as nat);
    }
}

/// Inside a repeat all the data that is left matches, or 258 bytes of it.
proof fn lemma_repeat_matches(data: Seq<u8>, q: int, d: int, pos: int)
    requires
        repeats(data, q, d),
        q <= pos,
        pos + 2 < data.len(),
    ensures
        best_match(data, pos, pos).1 >= data.len() - pos || best_match(data, pos, pos).1 >= 258,
{
    let len = if data.len() - pos < 65_538 {
        data.len() - pos
    } else {
        65_538
    };
    assert(same_bytes_at(data, pos - d, pos, len)) by {
        assert forall|i: int| 0 <= i < len implies #[trigger] data[pos + i] == data[pos - d + i] by {
            assert(data[pos + i] == data[pos + i - d]);
        }
    }
    matches_are_found(data, pos, pos, pos - d, len);
}

/// The size of the sequences inside a repeat.
proof fn lemma_repeat_size(data: Seq<u8>, q: int, d: int, pos: int, start: int, deferred: bool)
    requires
        repeats(data, q, d),
        q <= pos <= data.len(),
        0 <= start <= pos,
    ensures
        16 * sequences(data, pos, start, deferred).len() <= 16 * literal_cost((pos - start) as nat)
            + (data.len() - pos) + if deferred {
            128int
        } else {
            160int
        },
    decreases data.len() - pos,
{
    let n = data.len() as int;
    let waiting = (pos - start) as nat;
    if pos + 2 >= n {
        let all = (n - start) as nat;
        lemma_length_extension(waiting);
        lemma_length_extension(waiting + 1);
        lemma_length_extension(waiting + 2);
    } else {
        lemma_repeat_matches(data, q, d, pos);
        lemma_search_sound(data, pos, pos - 1, 0, (0, 2));
        if n - pos >= 4 {
            lemma_search_sound(data, pos + 1, pos - 1, 0, (0, 2));
        }
        let (offset, len) = best_match(data, pos, pos);
        if takes_match(data, pos, deferred) {
            lemma_repeat_size(data, q, d, pos + len, pos + len, false);
            lemma_length_extension(0);
            lemma_length_extension((len - 3) as nat);
            if pos + len == n {
                assert(sequences(data, n, n, false).len() == 0);
            }
        } else {
            lemma_repeat_size(data, q, d, pos + 1, start, true);
            lemma_length_extension(waiting);
        }
    }
}

/// The size of the sequences before a repeat and in it.
proof fn lemma_size(data: Seq<u8>, q: int, d: int, pos: int, start: int, deferred: bool)
    requires
        repeats(data, q, d) || q == data.len(),
        0 <= start <= pos <= data.len(),
        0 <= q <= data.len(),
    ensures
        240 * sequences(data, pos, start, deferred).len() <= if pos <= q {
            256 * (q - start) + 15 * (data.len() - q) + 3840
        } else {
            256 * (pos - start) + 15 * (data.len() - pos) + 2880
        },
    decreases data.len() - pos,
{
    let n = data.len() as int;
    let waiting = (pos - start) as nat;
    lemma_length_extension(waiting);
    if pos >= q && repeats(data, q, d) {
        lemma_repeat_size(data, q, d, pos, start, deferred);
    } else if pos + 2 >= n {
        lemma_length_extension((n - start) as nat);
    } else {
        lemma_search_sound(data, pos, pos - 1, 0, (0, 2));
        let (offset, len) = best_match(data, pos, pos);
        if takes_match(data, pos, deferred) {
            lemma_size(data, q, d, pos + len, pos + len, false);
            lemma_length_extension((len - 3) as nat);
            let part = sequence_bytes(data.subrange(start, pos), offset, len);
            assert(part.len() == 3 + waiting + length_extension(waiting).len() + length_extension(
                (len - 3) as nat,
            ).len());
            assert(240 * part.len() <= 256 * waiting + 256 * len);
            assert(240 * part.len() <= 256 * waiting + 960 + len);
        } else {
            lemma_size(data, q, d, pos + 1, start, best_match(data, pos, pos).1 >= MIN_MATCH);
        }
    }
}

/// Repeats are won: where the data from `q` on repeats what stands less than 64 KiB before,
/// that part takes about a sixteenth of its size, and the part before it at most a fifteenth
/// more than its own.
pub proof fn repeats_take_little(data: Seq<u8>, q: int, d: int)
    requires
        repeats(data, q, d),
    ensures
        240 * lz77_encoding(data).len() <= 256 * q + 15 * (data.len() - q) + 4800,
{
    lemma_size(data, q, d, 0, 0, false);
    lemma_le_bytes_len(data.len(), 4);
}

/// No data grows by more than a fifteenth and a few bytes.
pub proof fn encodings_grow_little(data: Seq<u8>)
    ensures
        240 * lz77_encoding(data).len() <= 256 * data.len() + 4800,
{
    lemma_size(data, data.len() as int, 1, 0, 0, false);
    lemma_le_bytes_len(data.len(), 4);
}

/// How many bytes extend the length `n` in a token.
pub open spec fn extension_count(n: int) -> int {
    if n < 15 {
        0
    } else {
        (n - 15) / 255 + 1
    }
}

proof fn lemma_extension_bytes(n: nat, i: int)
    requires
        0 <= i <= n / 255,
    ensures
        extension(n).len() == n / 255 + 1,
        extension(n)[i] == if i < n / 255 {
            255
        } else {
            (n % 255) as int
        },
    decreases n,
{
    lemma_extension_len(n);
    if n >= 255 && i > 0 {
        lemma_extension_bytes((n - 255) as nat, i - 1);
    }
}

/// Where the parts of a sequence stand: the token with both lengths, in its high half that of
/// the literals and in its low half that of the match less three; the bytes that extend the
/// first; the literals; the offset, low byte first; the bytes that extend the second. Of such
/// bytes all but the last are 255, and with the 15 of the token they sum up to the length.
pub proof fn sequence_layout(literals: Seq<u8>, offset: int, len: int, i: int)
    requires
        0 < offset < 65_536,
        len >= 3,
    ensures
        ({
            let s = sequence_bytes(literals, offset, len);
            let n = literals.len() as int;
            let at = 1 + extension_count(n);
            &&& s.len() == at + n + 2 + extension_count(len - 3)
            &&& s[0] / 16 == if n < 15 {
                n
            } else {
                15
            }
            &&& s[0] % 16 == if len < 18 {
                len - 3
            } else {
                15
            }
            &&& 1 <= i < at - 1 ==> s[i] == 255
            &&& n >= 15 ==> s[at - 1] == (n - 15) % 255
            &&& s.subrange(at, at + n) == literals
            &&& s[at + n] + 256 * s[at + n + 1] == offset
            &&& at + n + 2 <= i < s.len() - 1 ==> s[i] == 255
            &&& len >= 18 ==> s[s.len() - 1] == (len - 18) % 255
        }),
        final_bytes(literals).len() == 1 + extension_count(literals.len() as int) + literals.len(),
        final_bytes(literals).skip(1 + extension_count(literals.len() as int)) == literals,
{
    let s = sequence_bytes(literals, offset, len);
    let n = literals.len();
    let more = (len - 3) as nat;
    let at = 1 + extension_count(n as int);
    if n >= 15 {
        let x = (n - 15) as nat;
        lemma_extension_bytes(x, x as int / 255);
        if 1 <= i < at {
            lemma_extension_bytes(x, i - 1);
        }
    }
    if len >= 18 {
        let x = (more - 15) as nat;
        lemma_extension_bytes(x, x as int / 255);
        if at + n + 2 <= i < s.len() {
            lemma_extension_bytes(x, i - (at + n + 2));
        }
    }
    assert(s.subrange(at, at + n) =~= literals);
    assert(final_bytes(literals).skip(at) =~= literals);
}

/// A copied match leaves what was there, and repeats what stands `offset` before, also where
/// it runs into itself.
pub proof fn matches_copy_what_stands_before(out: Seq<u8>, offset: int, len: nat, i: int)
    requires
        0 < offset <= out.len(),
    ensures
        match_copied(out, offset, len).len() == out.len() + len,
        0 <= i < out.len() ==> match_copied(out, offset, len)[i] == out[i],
        out.len() <= i < out.len() + len ==> match_copied(out, offset, len)[i] == match_copied(
            out,
            offset,
            len,
        )[i - offset],
    decreases len,
{
    if len > 0 {
        let next = out.push(out[out.len() - offset]);
        matches_copy_what_stands_before(next, offset, (len - 1) as nat, i);
        if i == out.len() {
            matches_copy_what_stands_before(next, offset, (len - 1) as nat, i - offset);
        }
    }
}

/// What decodes has the expected size.
pub proof fn decoded_data_has_the_expected_size(encoded: Seq<u8>, expected: nat)
    requires
        lz77_decode_outcome(encoded, expected) is Ok,
    ensures
        lz77_decode_outcome(encoded, expected)->Ok_0.len() == expected,
        encoded.len() >= 4,
        le_value(encoded.subrange(0, 4)) == expected <= 67_108_864,
{
    lemma_decoded_size(encoded.skip(4), Seq::empty(), expected);
}

proof fn lemma_decoded_size(rest: Seq<u8>, out: Seq<u8>, size: nat)
    requires
        lz77_decode_rest(rest, out, size) is Ok,
    ensures
        lz77_decode_rest(rest, out, size)->Ok_0.len() == size,
    decreases rest.len(),
{
    if out.len() < size && rest.len() > 0 {
        let token = rest[0] as nat;
        let body = rest.drop_first();
        lemma_parts_read(body, token / 16, out, size);
        if let Ok((out, read)) = literals_read(body, token / 16, out, size) {
            if out.len() < size {
                let body = body.skip(read as int);
                lemma_parts_read(body, token % 16, out, size);
                if let Ok((out, read)) = match_read(body, token % 16, out, size) {
                    lemma_decoded_size(body.skip(read as int), out, size);
                }
            }
        }
    }
}

/// What [`lz77_encode`] gives for data that repeats from `q` on what stands less than 64 KiB
/// before: something much smaller, where the part before the repeat is not too large; and
/// what [`lz77_decode`] gives for that: the data.
pub proof fn repeats_are_encoded(
    data: &[u8],
    r: Option<Vec<u8>>,
    q: int,
    d: int,
    encoded: &[u8],
    decoded: Result<Vec<u8>>,
)
    requires
        call_ensures(lz77_encode, (data,), r),
        repeats(data@, q, d),
        3 <= data@.len() <= 67_108_864,
        256 * q + 15 * (data@.len() - q) + 4800 < 240 * data@.len(),
    ensures
        r is Some,
        240 * r->0@.len() <= 256 * q + 15 * (data@.len() - q) + 4800,
        encoded@ == r->0@ && call_ensures(lz77_decode, (encoded, data.len()), decoded) ==> decoded
            is Ok && decoded->Ok_0@ == data@,
{
    repeats_take_little(data@, q, d);
    lz77_round_trips(data@);
}

/// What [`lz77_encode`] gives is always smaller than the data, and decodes to it.
pub proof fn encodings_are_smaller_and_decode(
    data: &[u8],
    r: Option<Vec<u8>>,
    encoded: &[u8],
    decoded: Result<Vec<u8>>,
)
    requires
        call_ensures(lz77_encode, (data,), r),
        r is Some,
    ensures
        r->0@.len() < data@.len(),
        encoded@ == r->0@ && call_ensures(lz77_decode, (encoded, data.len()), decoded) ==> decoded
            is Ok && decoded->Ok_0@ == data@,
{
    lz77_round_trips(data@);
}

/// What [`lz77_decode`] gives has the expected size, which stands in front of the encoding.
pub proof fn decodings_have_the_expected_size(encoded: &[u8], expected: usize, r: Result<Vec<u8>>)
    requires
        call_ensures(lz77_decode, (encoded, expected), r),
        r is Ok,
    ensures
        r->Ok_0@.len() == expected <= 67_108_864,
        encoded@.len() >= 4,
        encoded@[0] + 256 * encoded@[1] + 65_536 * encoded@[2] + 16_777_216 * encoded@[3] == expected,
{
    decoded_data_has_the_expected_size(encoded@, expected as nat);
    crate::bytes::lowest_byte_comes_first(encoded@.subrange(0, 4));
}

/// An encoding starts with the size of the data.
pub proof fn encodings_start_with_the_size(data: Seq<u8>)
    requires
        data.len() <= 67_108_864,
    ensures
        lz77_encoding(data).len() >= 4,
        le_value(lz77_encoding(data).subrange(0, 4)) == data.len(),
{
    lemma_pow256_values();
    lemma_le_round_trip(data.len(), 4);
    assert(lz77_encoding(data).subrange(0, 4) =~= le_bytes(data.len(), 4));
}

} // verus!
