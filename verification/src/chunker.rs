//! Content-defined chunking.
//!
//! Breaks input data into variable-size chunks whose boundaries are determined by the
//! content itself, so that bytes inserted at the start of a file only move nearby
//! boundaries.

use crate::bytes::copy_of;
use crate::hashing::{blake3_hash, blake3_of};
use vstd::prelude::*;
use vstd::slice::slice_subrange;

verus! {

/// Minimum chunk size (16 KiB).
pub const MIN_CHUNK_SIZE: u32 = 16_384;

/// Average chunk size (512 KiB).
pub const AVG_CHUNK_SIZE: u32 = 524_288;

/// Maximum chunk size (4 MiB).
pub const MAX_CHUNK_SIZE: u32 = 4_194_304;

/// A chunk with its hash.
#[derive(Debug)]
pub struct Chunk {
    /// Offset within the original input stream.
    pub offset: u64,
    /// Length in bytes.
    pub length: usize,
    /// The raw chunk data.
    pub data: Vec<u8>,
    /// BLAKE3 hash of `data`.
    pub blake3_hash: [u8; 32],
}

/// The value of a [`Chunk`].
pub struct ChunkModel {
    pub offset: int,
    pub length: int,
    pub data: Seq<u8>,
    pub blake3_hash: [u8; 32],
}

impl View for Chunk {
    type V = ChunkModel;

    open spec fn view(&self) -> ChunkModel {
        ChunkModel {
            offset: self.offset as int,
            length: self.length as int,
            data: self.data@,
            blake3_hash: self.blake3_hash,
        }
    }
}

/// The chunk of `data` from `offset` on, `length` bytes long.
pub open spec fn chunk_of(data: Seq<u8>, offset: int, length: int) -> ChunkModel {
    let part = data.subrange(offset, offset + length);
    ChunkModel { offset, length, data: part, blake3_hash: blake3_of(part) }
}

/// The values of some chunks.
pub open spec fn values(chunks: Seq<Chunk>) -> Seq<ChunkModel> {
    chunks.map_values(|c: Chunk| c@)
}

/// Where the first `n` of `lengths` end when laid out one after another.
pub open spec fn end_of(lengths: Seq<usize>, n: int) -> int
    decreases n,
{
    if n <= 0 {
        0
    } else {
        end_of(lengths, n - 1) + lengths[n - 1]
    }
}

/// `lengths` are positive and add up to `total`.
pub open spec fn is_partition(lengths: Seq<usize>, total: int) -> bool {
    &&& forall|i: int| 0 <= i < lengths.len() ==> #[trigger] lengths[i] > 0
    &&& end_of(lengths, lengths.len() as int) == total
}

/// No length is above `max`, and none but the last is below `min`.
pub open spec fn sized_between(lengths: Seq<usize>, min: int, max: int) -> bool {
    forall|i: int|
        0 <= i < lengths.len() ==> (#[trigger] lengths[i] <= max && (i + 1 < lengths.len()
            ==> lengths[i] >= min))
}

/// `data` cut into chunks of the given lengths.
pub open spec fn cut_up(data: Seq<u8>, lengths: Seq<usize>) -> Seq<ChunkModel> {
    Seq::new(lengths.len(), |i: int| chunk_of(data, end_of(lengths, i), lengths[i] as int))
}

/// The lengths of the chunks that FastCDC (its 2020 variant, at normalization level 1)
/// finds in `data` for a minimum, average and maximum chunk size.
pub uninterp spec fn content_lengths(data: Seq<u8>, min: u32, avg: u32, max: u32) -> Seq<usize>;

/// The chunks of `data` by `fastcdc::v2020::FastCDC::new` and its iterator, each as its
/// offset and length. Its `cut_gear` takes the rest of the data where that has no more
/// than `min` bytes, and else looks for a cut from `min` on and takes at most `max` bytes;
/// the iterator stops when nothing is left. So the chunks lie one after another, are
/// never empty and cover the data.
#[verifier::external_body]
fn content_chunks(data: &[u8], min: u32, avg: u32, max: u32) -> (r: Vec<(usize, usize)>)
    requires
        64 <= min <= 1_048_576,
        256 <= avg <= 4_194_304,
        1024 <= max <= 16_777_216,
        min <= avg <= max,
        min % 2 == 0,
    ensures
        r@.map_values(|c: (usize, usize)| c.1) == content_lengths(data@, min, avg, max),
        forall|i: int|
            0 <= i < r@.len() ==> (#[trigger] r@[i]).0 == end_of(
                r@.map_values(|c: (usize, usize)| c.1),
                i,
            ),
        is_partition(r@.map_values(|c: (usize, usize)| c.1), data@.len() as int),
        sized_between(r@.map_values(|c: (usize, usize)| c.1), min as int, max as int),
{
    fastcdc::v2020::FastCDC::new(data, min, avg, max).map(|c| (c.offset, c.length)).collect()
}

/// What an end is at most.
proof fn lemma_end_of(lengths: Seq<usize>, n: int, m: int)
    requires
        0 <= n <= m <= lengths.len(),
    ensures
        0 <= end_of(lengths, n) <= end_of(lengths, m),
    decreases m,
{
    if n < m {
        lemma_end_of(lengths, n, m - 1);
    } else if n > 0 {
        lemma_end_of(lengths, n - 1, n - 1);
    }
}

/// The chunk of `data` from `offset` on, `length` bytes long.
fn make_chunk(data: &[u8], offset: usize, length: usize) -> (c: Chunk)
    requires
        offset + length <= data@.len(),
    ensures
        c@ == chunk_of(data@, offset as int, length as int),
{
    assert(data.len() == data@.len());
    let part = copy_of(slice_subrange(data, offset, offset + length));
    let blake3_hash = blake3_hash(part.as_slice());
    Chunk { offset: offset as u64, length, data: part, blake3_hash }
}

/// Breaks a byte slice into content-defined chunks, each with its BLAKE3 hash.
///
/// The chunks lie one after another and cover the data; none is larger than
/// [`MAX_CHUNK_SIZE`], and none but the last smaller than [`MIN_CHUNK_SIZE`].
pub fn chunk_data(data: &[u8]) -> (chunks: Vec<Chunk>)
    ensures
        ({
            let lengths = content_lengths(data@, MIN_CHUNK_SIZE, AVG_CHUNK_SIZE, MAX_CHUNK_SIZE);
            &&& data@.len() == 0 ==> chunks@.len() == 0
            &&& data@.len() > 0 ==> values(chunks@) == cut_up(data@, lengths) && is_partition(
                lengths,
                data@.len() as int,
            ) && sized_between(lengths, MIN_CHUNK_SIZE as int, MAX_CHUNK_SIZE as int)
        }),
{
    if data.len() == 0 {
        return Vec::new();
    }
    let cuts = content_chunks(data, MIN_CHUNK_SIZE, AVG_CHUNK_SIZE, MAX_CHUNK_SIZE);
    let ghost lengths = cuts@.map_values(|c: (usize, usize)| c.1);
    let mut chunks: Vec<Chunk> = Vec::new();
    let mut i: usize = 0;
    while i < cuts.len()
        invariant
            i <= cuts@.len() == lengths.len(),
            chunks@.len() == i,
            lengths == cuts@.map_values(|c: (usize, usize)| c.1),
            is_partition(lengths, data@.len() as int),
            forall|k: int| 0 <= k < cuts@.len() ==> (#[trigger] cuts@[k]).0 == end_of(lengths, k),
            forall|k: int| 0 <= k < i ==> (#[trigger] chunks@[k])@ == cut_up(data@, lengths)[k],
        decreases cuts@.len() - i,
    {
        let (offset, length) = cuts[i];
        proof {
            assert(lengths[i as int] == length);
            assert(end_of(lengths, i + 1) == offset + length);
            lemma_end_of(lengths, i + 1, lengths.len() as int);
        }
        chunks.push(make_chunk(data, offset, length));
        i = i + 1;
    }
    assert(values(chunks@) =~= cut_up(data@, lengths));
    chunks
}

/// The lengths of blocks of `block_size` bytes that `total` bytes are cut into: all are
/// full but the last, which holds what is left.
pub open spec fn fixed_lengths(total: int, block_size: usize) -> Seq<usize>
    decreases total,
{
    if total <= 0 || block_size == 0 {
        Seq::empty()
    } else if total <= block_size {
        seq![total as usize]
    } else {
        seq![block_size] + fixed_lengths(total - block_size, block_size)
    }
}

/// The ends of `a + b`, where `a` has one length.
proof fn lemma_end_of_cons(a: usize, b: Seq<usize>, n: int)
    requires
        0 <= n <= b.len(),
    ensures
        end_of(seq![a] + b, n + 1) == a + end_of(b, n),
    decreases n,
{
    if n > 0 {
        lemma_end_of_cons(a, b, n - 1);
        assert((seq![a] + b)[n] == b[n - 1]);
    } else {
        assert((seq![a] + b)[0] == a);
        assert(end_of(seq![a] + b, 0) == 0);
    }
}

/// Where block `i` of those that `total` bytes are cut into lies.
spec fn is_block(total: int, block_size: usize, i: int) -> bool {
    let lengths = fixed_lengths(total, block_size);
    &&& end_of(lengths, i) == i * block_size < total
    &&& lengths[i] == if total - i * block_size < block_size {
        total - i * block_size
    } else {
        block_size as int
    }
}

/// Where fixed blocks start, how long they are, and what they add up to.
proof fn lemma_fixed_lengths(total: int, block_size: usize)
    requires
        0 <= total <= usize::MAX,
        block_size > 0,
    ensures
        is_partition(fixed_lengths(total, block_size), total),
        forall|i: int|
            0 <= i < fixed_lengths(total, block_size).len() ==> #[trigger] is_block(
                total,
                block_size,
                i,
            ),
    decreases total,
{
    let lengths = fixed_lengths(total, block_size);
    if total <= 0 {
        assert(end_of(lengths, 0) == 0);
    } else if total <= block_size {
        assert forall|i: int| 0 <= i < 1 implies #[trigger] is_block(total, block_size, i) by {
            assert(0 * block_size == 0) by (nonlinear_arith);
            assert(end_of(lengths, 0) == 0);
            assert(lengths[0] == total);
        }
        assert(end_of(lengths, 1) == end_of(lengths, 0) + lengths[0]);
    } else {
        let rest = fixed_lengths(total - block_size, block_size);
        lemma_fixed_lengths(total - block_size, block_size);
        assert(lengths == seq![block_size] + rest);
        assert forall|i: int| 0 <= i < lengths.len() implies #[trigger] is_block(
            total,
            block_size,
            i,
        ) by {
            if i > 0 {
                assert(is_block(total - block_size, block_size, i - 1));
                lemma_end_of_cons(block_size, rest, i - 1);
                assert(end_of(rest, i - 1) == (i - 1) * block_size);
                assert((i - 1) * block_size + block_size == i * block_size) by (nonlinear_arith);
                assert(lengths[i] == rest[i - 1]);
            } else {
                assert(end_of(lengths, 0) == 0);
                assert(0 * block_size == 0) by (nonlinear_arith);
            }
        }
        lemma_end_of_cons(block_size, rest, rest.len() as int);
        assert forall|i: int| 0 <= i < lengths.len() implies #[trigger] lengths[i] > 0 by {
            if i > 0 {
                assert(lengths[i] == rest[i - 1]);
            }
        }
    }
}

/// Breaks a byte slice into fixed-size blocks (fallback for small inputs).
pub fn chunk_fixed(data: &[u8], block_size: usize) -> (chunks: Vec<Chunk>)
    requires
        block_size > 0 || data@.len() == 0,
    ensures
        values(chunks@) == cut_up(data@, fixed_lengths(data@.len() as int, block_size)),
{
    let mut chunks: Vec<Chunk> = Vec::new();
    let n: usize = data.len();
    let ghost lengths = fixed_lengths(n as int, block_size);
    if n == 0 {
        assert(values(chunks@) =~= cut_up(data@, lengths));
        return chunks;
    }
    proof {
        lemma_fixed_lengths(n as int, block_size);
        assert(end_of(lengths, 0) == 0);
    }
    let mut offset: usize = 0;
    while offset < n
        invariant
            n == data@.len(),
            n > 0,
            block_size > 0,
            lengths == fixed_lengths(n as int, block_size),
            offset <= n,
            chunks@.len() <= lengths.len(),
            offset == end_of(lengths, chunks@.len() as int),
            forall|k: int| 0 <= k < chunks@.len() ==> (#[trigger] chunks@[k])@ == cut_up(
                data@,
                lengths,
            )[k],
        decreases n - offset,
    {
        let ghost i = chunks@.len() as int;
        proof {
            lemma_fixed_lengths(n as int, block_size);
            if i >= lengths.len() {
                assert(end_of(lengths, i) == n);
            }
            assert(is_block(n as int, block_size, i));
        }
        let length: usize = if n - offset < block_size {
            n - offset
        } else {
            block_size
        };
        assert(length == lengths[i]);
        chunks.push(make_chunk(data, offset, length));
        offset = offset + length;
    }
    proof {
        lemma_fixed_lengths(n as int, block_size);
        if chunks@.len() < lengths.len() {
            assert(is_block(n as int, block_size, chunks@.len() as int));
        }
    }
    assert(values(chunks@) =~= cut_up(data@, lengths));
    chunks
}

/// The data of some chunks, one after another.
pub open spec fn joined(chunks: Seq<ChunkModel>) -> Seq<u8>
    decreases chunks.len(),
{
    if chunks.len() == 0 {
        Seq::empty()
    } else {
        joined(chunks.drop_last()) + chunks.last().data
    }
}

proof fn lemma_joined(data: Seq<u8>, lengths: Seq<usize>, n: int)
    requires
        0 <= n <= lengths.len(),
        is_partition(lengths, data.len() as int),
    ensures
        joined(cut_up(data, lengths).take(n)) == data.take(end_of(lengths, n)),
    decreases n,
{
    let all = cut_up(data, lengths);
    lemma_end_of(lengths, n, lengths.len() as int);
    if n > 0 {
        lemma_end_of(lengths, n - 1, n);
        lemma_joined(data, lengths, n - 1);
        assert(all.take(n).drop_last() =~= all.take(n - 1));
        assert(all.take(n).last() == all[n - 1]);
        assert(data.take(end_of(lengths, n - 1)) + all[n - 1].data =~= data.take(
            end_of(lengths, n),
        ));
    } else {
        assert(data.take(0) =~= Seq::<u8>::empty());
        assert(all.take(0) =~= Seq::<ChunkModel>::empty());
    }
}

/// Chunks lie one after another from the start of the data, and joined they give it back.
pub proof fn chunks_cover_data(data: Seq<u8>, lengths: Seq<usize>)
    requires
        is_partition(lengths, data.len() as int),
    ensures
        joined(cut_up(data, lengths)) == data,
        forall|i: int|
            0 <= i < lengths.len() ==> (#[trigger] cut_up(data, lengths)[i]).offset == if i == 0 {
                0
            } else {
                cut_up(data, lengths)[i - 1].offset + cut_up(data, lengths)[i - 1].length
            },
{
    let all = cut_up(data, lengths);
    lemma_joined(data, lengths, lengths.len() as int);
    assert(all.take(all.len() as int) =~= all);
    assert(data.take(data.len() as int) =~= data);
    assert forall|i: int| 0 <= i < lengths.len() implies (#[trigger] all[i]).offset == if i == 0 {
        0
    } else {
        all[i - 1].offset + all[i - 1].length
    } by {
        if i > 0 {
            assert(end_of(lengths, i) == end_of(lengths, i - 1) + lengths[i - 1]);
        }
    }
}

/// Fixed blocks are a partition of the data: joined they give it back, all but the last
/// have `block_size` bytes, and the last at least one.
pub proof fn fixed_blocks_cover_data(data: Seq<u8>, block_size: usize)
    requires
        block_size > 0,
        data.len() <= usize::MAX,
    ensures
        joined(cut_up(data, fixed_lengths(data.len() as int, block_size))) == data,
        forall|i: int|
            0 <= i < fixed_lengths(data.len() as int, block_size).len() ==> {
                let length = #[trigger] fixed_lengths(data.len() as int, block_size)[i];
                &&& 0 < length <= block_size
                &&& i + 1 < fixed_lengths(data.len() as int, block_size).len() ==> length
                    == block_size
            },
{
    let lengths = fixed_lengths(data.len() as int, block_size);
    lemma_fixed_lengths(data.len() as int, block_size);
    chunks_cover_data(data, lengths);
    assert forall|i: int| 0 <= i < lengths.len() implies ({
        let length = #[trigger] lengths[i];
        &&& 0 < length <= block_size
        &&& i + 1 < lengths.len() ==> length == block_size
    }) by {
        assert(is_block(data.len() as int, block_size, i));
        if i + 1 < lengths.len() {
            assert(is_block(data.len() as int, block_size, i + 1));
            assert(i * block_size + block_size == (i + 1) * block_size) by (nonlinear_arith);
        }
    }
}

/// What one of some chunks of `data` is: the bytes at its offset, with their number and their
/// hash; it starts where the one before it ends.
pub open spec fn is_piece(data: Seq<u8>, chunks: Seq<Chunk>, i: int) -> bool {
    let c = chunks[i];
    &&& 0 < c.length
    &&& c.offset + c.length <= data.len()
    &&& c.data@ == data.subrange(c.offset as int, c.offset + c.length)
    &&& c.blake3_hash == blake3_of(c.data@)
    &&& c.offset == if i == 0 {
        0
    } else {
        chunks[i - 1].offset + chunks[i - 1].length
    }
    &&& i == chunks.len() - 1 ==> c.offset + c.length == data.len()
}

proof fn lemma_pieces(data: Seq<u8>, lengths: Seq<usize>, chunks: Seq<Chunk>, i: int)
    requires
        is_partition(lengths, data.len() as int),
        values(chunks) == cut_up(data, lengths),
        0 <= i < chunks.len(),
    ensures
        is_piece(data, chunks, i),
        chunks.len() == lengths.len(),
        chunks[i].length == lengths[i],
{
    assert(values(chunks).len() == chunks.len());
    assert(values(chunks)[i] == chunks[i]@);
    lemma_end_of(lengths, i, i + 1);
    lemma_end_of(lengths, i + 1, lengths.len() as int);
    assert(end_of(lengths, i + 1) == end_of(lengths, i) + lengths[i]);
    if i > 0 {
        assert(values(chunks)[i - 1] == chunks[i - 1]@);
        assert(end_of(lengths, i) == end_of(lengths, i - 1) + lengths[i - 1]);
    } else {
        assert(end_of(lengths, 0) == 0);
    }
}

/// What [`chunk_data`] gives: pieces that lie one after another and make up the data, with
/// their hashes; none has more than 4 MiB, and none but the last less than 16 KiB.
pub proof fn content_chunks_make_up_the_data(data: &[u8], chunks: Vec<Chunk>, i: int)
    requires
        call_ensures(chunk_data, (data,), chunks),
        0 <= i < chunks@.len(),
    ensures
        is_piece(data@, chunks@, i),
        chunks@[i].length <= 4_194_304,
        i + 1 < chunks@.len() ==> chunks@[i].length >= 16_384,
{
    let lengths = content_lengths(data@, MIN_CHUNK_SIZE, AVG_CHUNK_SIZE, MAX_CHUNK_SIZE);
    lemma_pieces(data@, lengths, chunks@, i);
}

/// Data that is not empty has chunks, and empty data none.
pub proof fn only_empty_data_has_no_chunks(
    data: &[u8],
    chunks: Vec<Chunk>,
    size: usize,
    blocks: Vec<Chunk>,
)
    requires
        call_ensures(chunk_data, (data,), chunks),
        call_ensures(chunk_fixed, (data, size), blocks),
        size > 0,
    ensures
        chunks@.len() == 0 <==> data@.len() == 0,
        blocks@.len() == 0 <==> data@.len() == 0,
{
    let lengths = content_lengths(data@, MIN_CHUNK_SIZE, AVG_CHUNK_SIZE, MAX_CHUNK_SIZE);
    assert(values(chunks@).len() == chunks@.len());
    assert(values(blocks@).len() == blocks@.len());
    assert(data@.len() == data.len());
    lemma_fixed_lengths(data@.len() as int, size);
    if data@.len() > 0 && lengths.len() == 0 {
        assert(end_of(lengths, 0) == 0);
    }
}

/// What [`chunk_fixed`] gives: pieces that lie one after another and make up the data, with
/// their hashes, all of the given size but the last.
pub proof fn fixed_chunks_make_up_the_data(data: &[u8], size: usize, chunks: Vec<Chunk>, i: int)
    requires
        call_ensures(chunk_fixed, (data, size), chunks),
        size > 0,
        0 <= i < chunks@.len(),
    ensures
        is_piece(data@, chunks@, i),
        chunks@[i].length <= size,
        i + 1 < chunks@.len() ==> chunks@[i].length == size,
{
    assert(data@.len() == data.len());
    let lengths = fixed_lengths(data@.len() as int, size);
    lemma_fixed_lengths(data@.len() as int, size);
    lemma_pieces(data@, lengths, chunks@, i);
    fixed_blocks_cover_data(data@, size);
    assert(lengths[i] <= size);
}

/// Blocks of a fixed size are pieces of the data.
pub proof fn lemma_fixed_pieces(data: Seq<u8>, size: usize, chunks: Seq<Chunk>, i: int)
    requires
        size > 0,
        data.len() <= usize::MAX,
        values(chunks) == cut_up(data, fixed_lengths(data.len() as int, size)),
        0 <= i < chunks.len(),
    ensures
        is_piece(data, chunks, i),
{
    lemma_fixed_lengths(data.len() as int, size);
    lemma_pieces(data, fixed_lengths(data.len() as int, size), chunks, i);
}

/// The cuts of [`chunk_data`] are those that the content calls for with chunks of 16 KiB to 4
/// MiB, 512 KiB on average.
pub proof fn chunks_are_cut_by_content(data: &[u8], chunks: Vec<Chunk>, i: int)
    requires
        call_ensures(chunk_data, (data,), chunks),
        data@.len() > 0,
    ensures
        chunks@.len() == content_lengths(data@, 16_384, 524_288, 4_194_304).len(),
        0 <= i < chunks@.len() ==> chunks@[i].length == content_lengths(
            data@,
            16_384,
            524_288,
            4_194_304,
        )[i],
{
    assert(values(chunks@).len() == chunks@.len());
    if 0 <= i < chunks@.len() {
        assert(values(chunks@)[i] == chunks@[i]@);
    }
}

} // verus!
