//! Block header, block trailer and block index entries.

use crate::bytes::{
    is_rest_of, le_bytes, lemma_pow256_values, push_all, push_le, read_le, ByteReader,
};
use crate::error::{eof_model, AetherError, ErrorModel, Result};
use crate::format::{CompressionMethod, BLOCK_MAGIC};
use crate::hashing::{crc32, crc32_notices_a_changed_byte, crc32_of};
use crate::header::{lemma_field, lemma_number_at, number_at};
use vstd::prelude::*;

verus! {

// Block header.

/// Header preceding each compressed data block.
///
/// It holds the block's compression method and sizes, and a predictor state flag that
/// controls whether the decompressor syncs its predictor state after this block. Its
/// checksum is a CRC32: it detects corruption, and is no protection against forgery.
#[derive(Debug, Clone, Copy, PartialEq, Eq, Structural)]
pub struct BlockHeader {
    /// Unique block identifier within the archive.
    pub block_id: u32,
    /// Solid group this block belongs to.
    pub solid_group_id: u32,
    /// Compression method used for this block's payload.
    pub compression_method: CompressionMethod,
    /// If `true`, predictor sync was skipped during compression, and the decompressor
    /// must skip it too.
    pub predictor_state_flag: bool,
    /// Size of the compressed payload in bytes.
    pub compressed_size: u32,
    /// Size of the original uncompressed data in bytes.
    pub uncompressed_size: u32,
}

impl BlockHeader {
    /// The first 24 bytes: everything but the checksum.
    pub open spec fn fields(self) -> Seq<u8> {
        le_bytes(BLOCK_MAGIC as nat, 4) + le_bytes(self.block_id as nat, 4) + le_bytes(
            self.solid_group_id as nat,
            4,
        ) + seq![
            self.compression_method.number(),
            if self.predictor_state_flag {
                1u8
            } else {
                0u8
            },
        ] + le_bytes(0, 2) + le_bytes(self.compressed_size as nat, 4) + le_bytes(
            self.uncompressed_size as nat,
            4,
        )
    }

    /// The header as stored.
    pub open spec fn bytes(self) -> Seq<u8> {
        self.fields() + le_bytes(crc32_of(self.fields()) as nat, 4)
    }

    /// The header with the fields found in `s`.
    pub open spec fn found_in(s: Seq<u8>, compression_method: CompressionMethod) -> BlockHeader {
        BlockHeader {
            block_id: number_at(s, 4, 4) as u32,
            solid_group_id: number_at(s, 8, 4) as u32,
            compression_method,
            predictor_state_flag: s[13] != 0,
            compressed_size: number_at(s, 16, 4) as u32,
            uncompressed_size: number_at(s, 20, 4) as u32,
        }
    }

    /// What reading a header from `s` gives, where `s` stands at `offset` in the archive.
    /// The checksum is held against the header's own fields: a flag other than 0 counts
    /// as 1, and the reserved bytes as 0.
    pub open spec fn read_outcome(
        s: Seq<u8>,
        offset: u64,
    ) -> std::result::Result<BlockHeader, ErrorModel> {
        if s.len() < 4 {
            Err(eof_model())
        } else if number_at(s, 0, 4) != BLOCK_MAGIC {
            Err(ErrorModel::InvalidBlockMagic { offset })
        } else if s.len() < 13 {
            Err(eof_model())
        } else {
            match CompressionMethod::of_number(s[12]) {
                None => Err(ErrorModel::UnknownCompressionMethod(s[12])),
                Some(method) => {
                    let h = BlockHeader::found_in(s, method);
                    if s.len() < 28 {
                        Err(eof_model())
                    } else if number_at(s, 24, 4) != crc32_of(h.fields()) {
                        Err(ErrorModel::BlockCrcMismatch { block_id: h.block_id })
                    } else {
                        Ok(h)
                    }
                },
            }
        }
    }

    fn field_bytes(&self) -> (v: Vec<u8>)
        ensures
            v@ == self.fields(),
    {
        let mut v: Vec<u8> = Vec::new();
        push_le(&mut v, BLOCK_MAGIC as u64, 4);
        push_le(&mut v, self.block_id as u64, 4);
        push_le(&mut v, self.solid_group_id as u64, 4);
        v.push(self.compression_method.to_u8());
        v.push(
            if self.predictor_state_flag {
                1
            } else {
                0
            },
        );
        push_le(&mut v, 0, 2);
        push_le(&mut v, self.compressed_size as u64, 4);
        push_le(&mut v, self.uncompressed_size as u64, 4);
        assert(v@ =~= self.fields());
        v
    }

    fn compute_crc(&self) -> (crc: u32)
        ensures
            crc == crc32_of(self.fields()),
    {
        let fields = self.field_bytes();
        crc32(fields.as_slice())
    }

    /// Appends the header: 28 bytes.
    pub fn write_to(&self, w: &mut Vec<u8>) -> (r: Result<()>)
        ensures
            r is Ok,
            final(w)@ == old(w)@ + self.bytes(),
    {
        let fields = self.field_bytes();
        push_all(w, fields.as_slice());
        push_le(w, self.compute_crc() as u64, 4);
        assert(w@ =~= old(w)@ + self.bytes());
        Ok(())
    }

    /// Reads a block header, using the given archive offset for error reporting.
    pub fn read_from_at(r: &mut ByteReader, archive_offset: u64) -> (result: Result<BlockHeader>)
        ensures
            match (result, BlockHeader::read_outcome(old(r)@, archive_offset)) {
                (Ok(h), Ok(m)) => h == m && final(r)@ == old(r)@.skip(28),
                (Err(e), Err(m)) => e@ == m,
                _ => false,
            },
            is_rest_of(final(r)@, old(r)@),
    {
        let ghost s = r@;
        proof {
            lemma_pow256_values();
            assert(s.skip(0) =~= s);
        }
        let magic: u32 = match r.take_u32() {
            Ok(v) => v,
            Err(e) => {
                return Err(e);
            },
        };
        assert(s.take(4) =~= s.subrange(0, 4));
        if magic != BLOCK_MAGIC {
            return Err(AetherError::InvalidBlockMagic { offset: archive_offset });
        }
        let ids = match r.take_bytes(9) {
            Ok(v) => v,
            Err(e) => {
                return Err(e);
            },
        };
        assert(s.skip(4).skip(9) =~= s.skip(13));
        assert(ids@[8] == s[12]);
        let compression_method = match CompressionMethod::from_u8(ids[8]) {
            Ok(m) => m,
            Err(e) => {
                return Err(e);
            },
        };
        let rest = match r.take_bytes(15) {
            Ok(v) => v,
            Err(e) => {
                return Err(e);
            },
        };
        proof {
            assert(s.skip(13).skip(15) =~= s.skip(28));
            assert(ids@.subrange(0, 4) =~= s.subrange(4, 8));
            assert(ids@.subrange(4, 8) =~= s.subrange(8, 12));
            assert(rest@[0] == s[13]);
            assert(rest@.subrange(3, 7) =~= s.subrange(16, 20));
            assert(rest@.subrange(7, 11) =~= s.subrange(20, 24));
            assert(rest@.subrange(11, 15) =~= s.subrange(24, 28));
        }
        let header = BlockHeader {
            block_id: read_le(ids, 0, 4) as u32,
            solid_group_id: read_le(ids, 4, 4) as u32,
            compression_method,
            predictor_state_flag: rest[0] != 0,
            compressed_size: read_le(rest, 3, 4) as u32,
            uncompressed_size: read_le(rest, 7, 4) as u32,
        };
        let stored: u32 = read_le(rest, 11, 4) as u32;
        if stored != header.compute_crc() {
            return Err(AetherError::BlockCrcMismatch { block_id: header.block_id });
        }
        Ok(header)
    }

    /// Reads a block header whose offset is unknown, and reported as 0 in errors.
    pub fn read_from(r: &mut ByteReader) -> (result: Result<BlockHeader>)
        ensures
            match (result, BlockHeader::read_outcome(old(r)@, 0)) {
                (Ok(h), Ok(m)) => h == m && final(r)@ == old(r)@.skip(28),
                (Err(e), Err(m)) => e@ == m,
                _ => false,
            },
            is_rest_of(final(r)@, old(r)@),
    {
        BlockHeader::read_from_at(r, 0)
    }
}

/// A block header is read back from the 28 bytes written for it, whatever follows them
/// and wherever they stand.
pub proof fn block_header_round_trips(h: BlockHeader, tail: Seq<u8>, offset: u64)
    ensures
        h.bytes().len() == 28,
        BlockHeader::read_outcome(h.bytes() + tail, offset) == Ok::<BlockHeader, ErrorModel>(h),
{
    lemma_field(BLOCK_MAGIC as nat, 4);
    lemma_field(h.block_id as nat, 4);
    lemma_field(h.solid_group_id as nat, 4);
    lemma_field(0, 2);
    lemma_field(h.compressed_size as nat, 4);
    lemma_field(h.uncompressed_size as nat, 4);
    lemma_field(crc32_of(h.fields()) as nat, 4);
    let s = h.bytes() + tail;
    assert(s.subrange(0, 4) =~= le_bytes(BLOCK_MAGIC as nat, 4));
    assert(s.subrange(4, 8) =~= le_bytes(h.block_id as nat, 4));
    assert(s.subrange(8, 12) =~= le_bytes(h.solid_group_id as nat, 4));
    assert(s[12] == h.compression_method.number());
    assert(s.subrange(16, 20) =~= le_bytes(h.compressed_size as nat, 4));
    assert(s.subrange(20, 24) =~= le_bytes(h.uncompressed_size as nat, 4));
    assert(s.subrange(24, 28) =~= le_bytes(crc32_of(h.fields()) as nat, 4));
}

/// The fields of the header that is found in bytes with the right magic number are those
/// bytes, but for a flag that is taken for 1 and reserved bytes that are taken for 0.
proof fn lemma_found_fields(s: Seq<u8>, method: CompressionMethod)
    requires
        s.len() >= 28,
        number_at(s, 0, 4) == BLOCK_MAGIC,
        CompressionMethod::of_number(s[12]) == Some(method),
    ensures
        BlockHeader::found_in(s, method).fields() == s.take(24).update(
            13,
            if s[13] != 0 {
                1
            } else {
                0
            },
        ).update(14, 0).update(15, 0),
{
    lemma_number_at(s, 0, 4);
    lemma_number_at(s, 4, 4);
    lemma_number_at(s, 8, 4);
    lemma_number_at(s, 16, 4);
    lemma_number_at(s, 20, 4);
    lemma_field(0, 2);
    assert(le_bytes(0, 2) =~= seq![0u8, 0u8]) by {
        reveal_with_fuel(le_bytes, 3);
    }
    assert(BlockHeader::found_in(s, method).fields() =~= s.take(24).update(
        13,
        if s[13] != 0 {
            1
        } else {
            0
        },
    ).update(14, 0).update(15, 0));
}

/// What becomes of a header as written when one byte of it changes. In the magic number
/// and in all fields but three the change is noticed, by the magic number or the checksum.
/// A changed method is noticed too, as unknown or by the checksum; of the flag only whether
/// it is 0 counts, and the reserved bytes do not.
pub proof fn block_header_damage_is_noticed(
    h: BlockHeader,
    tail: Seq<u8>,
    offset: u64,
    i: int,
    b: u8,
)
    requires
        0 <= i < 28,
        h.bytes()[i] != b,
    ensures
        ({
            let outcome = BlockHeader::read_outcome(h.bytes().update(i, b) + tail, offset);
            let noticed = outcome matches Err(ErrorModel::BlockCrcMismatch { block_id });
            if i < 4 {
                outcome == Err::<BlockHeader, ErrorModel>(ErrorModel::InvalidBlockMagic { offset })
            } else if i == 12 && CompressionMethod::of_number(b) is None {
                outcome == Err::<BlockHeader, ErrorModel>(ErrorModel::UnknownCompressionMethod(b))
            } else if i == 14 || i == 15 || i == 13 && h.predictor_state_flag == (b != 0) {
                outcome == Ok::<BlockHeader, ErrorModel>(h)
            } else {
                noticed
            }
        }),
{
    block_header_round_trips(h, tail, offset);
    let s = h.bytes() + tail;
    let t = h.bytes().update(i, b) + tail;
    lemma_number_at(s, 0, 4);
    lemma_number_at(t, 0, 4);
    lemma_number_at(s, 24, 4);
    lemma_number_at(t, 24, 4);
    if i < 4 {
        assert(t.subrange(0, 4)[i] != s.subrange(0, 4)[i]);
    } else {
        assert(t.subrange(0, 4) =~= s.subrange(0, 4));
        lemma_found_fields(s, h.compression_method);
        assert(BlockHeader::found_in(s, h.compression_method) == h);
        assert(h.fields() == s.take(24)) by {
            assert(h.bytes().take(24) =~= h.fields()) by {
                lemma_field(crc32_of(h.fields()) as nat, 4);
            }
            assert(s.take(24) =~= h.bytes().take(24));
        }
        if let Some(method) = CompressionMethod::of_number(t[12]) {
            lemma_found_fields(t, method);
            let found = BlockHeader::found_in(t, method);
            if i >= 24 {
                assert(t.subrange(24, 28)[i - 24] != s.subrange(24, 28)[i - 24]);
                assert(found.fields() =~= h.fields());
            } else {
                assert(t.subrange(24, 28) =~= s.subrange(24, 28));
                if i == 14 || i == 15 || i == 13 && h.predictor_state_flag == (b != 0) {
                    assert(t.subrange(4, 8) =~= s.subrange(4, 8));
                    assert(t.subrange(8, 12) =~= s.subrange(8, 12));
                    assert(t.subrange(16, 20) =~= s.subrange(16, 20));
                    assert(t.subrange(20, 24) =~= s.subrange(20, 24));
                    assert(found == h);
                } else if i == 13 {
                    let flag: u8 = if b != 0 {
                        1
                    } else {
                        0
                    };
                    assert(found.fields() =~= h.fields().update(13, flag));
                    crc32_notices_a_changed_byte(h.fields(), 13, flag);
                } else {
                    assert(found.fields() =~= h.fields().update(i, b));
                    crc32_notices_a_changed_byte(h.fields(), i, b);
                }
            }
        }
    }
}

// Block trailer.

/// Trailer following each compressed data block: the BLAKE3 hash of the original data,
/// and a CRC32 of that hash.
#[derive(Debug, Clone, PartialEq, Eq)]
pub struct BlockTrailer {
    /// BLAKE3 hash of the original uncompressed block data.
    pub content_blake3: [u8; 32],
}

impl View for BlockTrailer {
    type V = Seq<u8>;

    open spec fn view(&self) -> Seq<u8> {
        self.content_blake3@
    }
}

/// The trailer with the given hash as stored.
pub open spec fn trailer_bytes(hash: Seq<u8>) -> Seq<u8> {
    hash + le_bytes(crc32_of(hash) as nat, 4)
}

/// What reading the trailer of a block from `s` gives: its hash.
pub open spec fn trailer_read_outcome(
    s: Seq<u8>,
    block_id: u32,
) -> std::result::Result<Seq<u8>, ErrorModel> {
    if s.len() < 36 {
        Err(eof_model())
    } else if number_at(s, 32, 4) != crc32_of(s.take(32)) {
        Err(ErrorModel::BlockCrcMismatch { block_id })
    } else {
        Ok(s.take(32))
    }
}

impl BlockTrailer {
    /// Appends the trailer: 36 bytes.
    pub fn write_to(&self, w: &mut Vec<u8>) -> (r: Result<()>)
        ensures
            r is Ok,
            final(w)@ == old(w)@ + trailer_bytes(self@),
    {
        push_all(w, self.content_blake3.as_slice());
        push_le(w, crc32(self.content_blake3.as_slice()) as u64, 4);
        assert(w@ =~= old(w)@ + trailer_bytes(self@));
        Ok(())
    }

    /// Reads and checks the trailer of the block `block_id`, which a checksum error names.
    pub fn read_from_with_id(r: &mut ByteReader, block_id: u32) -> (result: Result<BlockTrailer>)
        ensures
            match (result, trailer_read_outcome(old(r)@, block_id)) {
                (Ok(t), Ok(hash)) => t@ == hash && final(r)@ == old(r)@.skip(36),
                (Err(e), Err(m)) => e@ == m,
                _ => false,
            },
            is_rest_of(final(r)@, old(r)@),
    {
        let ghost s = r@;
        proof {
            lemma_pow256_values();
            assert(s.skip(0) =~= s);
        }
        let content_blake3 = match r.take_32() {
            Ok(v) => v,
            Err(e) => {
                return Err(e);
            },
        };
        let stored: u32 = match r.take_u32() {
            Ok(v) => v,
            Err(e) => {
                return Err(e);
            },
        };
        assert(s.skip(32).take(4) =~= s.subrange(32, 36));
        assert(s.skip(32).skip(4) =~= s.skip(36));
        if stored != crc32(content_blake3.as_slice()) {
            return Err(AetherError::BlockCrcMismatch { block_id });
        }
        Ok(BlockTrailer { content_blake3 })
    }

    /// Reads and checks a trailer; a checksum error names block 0.
    pub fn read_from(r: &mut ByteReader) -> (result: Result<BlockTrailer>)
        ensures
            match (result, trailer_read_outcome(old(r)@, 0)) {
                (Ok(t), Ok(hash)) => t@ == hash && final(r)@ == old(r)@.skip(36),
                (Err(e), Err(m)) => e@ == m,
                _ => false,
            },
            is_rest_of(final(r)@, old(r)@),
    {
        BlockTrailer::read_from_with_id(r, 0)
    }
}

/// A trailer is read back from the 36 bytes written for it, whatever follows them.
pub proof fn block_trailer_round_trips(hash: Seq<u8>, tail: Seq<u8>, block_id: u32)
    requires
        hash.len() == 32,
    ensures
        trailer_bytes(hash).len() == 36,
        trailer_read_outcome(trailer_bytes(hash) + tail, block_id) == Ok::<
            Seq<u8>,
            ErrorModel,
        >(hash),
{
    lemma_field(crc32_of(hash) as nat, 4);
    let s = trailer_bytes(hash) + tail;
    assert(s.take(32) =~= hash);
    assert(s.subrange(32, 36) =~= le_bytes(crc32_of(hash) as nat, 4));
}

/// One changed byte of a trailer as written is noticed.
pub proof fn block_trailer_damage_is_noticed(
    hash: Seq<u8>,
    tail: Seq<u8>,
    block_id: u32,
    i: int,
    b: u8,
)
    requires
        hash.len() == 32,
        0 <= i < 36,
        trailer_bytes(hash)[i] != b,
    ensures
        trailer_read_outcome(trailer_bytes(hash).update(i, b) + tail, block_id) == Err::<
            Seq<u8>,
            ErrorModel,
        >(ErrorModel::BlockCrcMismatch { block_id }),
{
    block_trailer_round_trips(hash, tail, block_id);
    let s = trailer_bytes(hash) + tail;
    let t = trailer_bytes(hash).update(i, b) + tail;
    lemma_number_at(s, 32, 4);
    lemma_number_at(t, 32, 4);
    if i < 32 {
        assert(t.take(32) =~= hash.update(i, b));
        assert(t.subrange(32, 36) =~= s.subrange(32, 36));
        assert(s.take(32) =~= hash);
        crc32_notices_a_changed_byte(hash, i, b);
    } else {
        assert(t.take(32) =~= s.take(32));
        assert(t.subrange(32, 36)[i - 32] != s.subrange(32, 36)[i - 32]);
    }
}

// Block index entries.

/// One entry in the block index, which maps a block to its place in the archive file and
/// so enables random access.
#[derive(Debug, Clone, Copy, PartialEq, Eq, Structural)]
pub struct BlockIndexEntry {
    /// Unique block identifier.
    pub block_id: u32,
    /// Byte offset of this block's header within the archive file.
    pub archive_offset: u64,
    /// Compressed payload size in bytes.
    pub compressed_size: u32,
    /// Original uncompressed data size in bytes.
    pub uncompressed_size: u32,
    /// Solid group this block belongs to.
    pub solid_group_id: u32,
}

impl BlockIndexEntry {
    /// The entry as stored.
    pub open spec fn bytes(self) -> Seq<u8> {
        le_bytes(self.block_id as nat, 4) + le_bytes(self.archive_offset as nat, 8) + le_bytes(
            self.compressed_size as nat,
            4,
        ) + le_bytes(self.uncompressed_size as nat, 4) + le_bytes(self.solid_group_id as nat, 4)
    }

    /// What reading an entry from `s` gives.
    pub open spec fn read_outcome(s: Seq<u8>) -> std::result::Result<BlockIndexEntry, ErrorModel> {
        if s.len() < 24 {
            Err(eof_model())
        } else {
            Ok(
                BlockIndexEntry {
                    block_id: number_at(s, 0, 4) as u32,
                    archive_offset: number_at(s, 4, 8) as u64,
                    compressed_size: number_at(s, 12, 4) as u32,
                    uncompressed_size: number_at(s, 16, 4) as u32,
                    solid_group_id: number_at(s, 20, 4) as u32,
                },
            )
        }
    }

    /// Appends the entry: 24 bytes.
    pub fn write_to(&self, w: &mut Vec<u8>) -> (r: Result<()>)
        ensures
            r is Ok,
            final(w)@ == old(w)@ + self.bytes(),
    {
        push_le(w, self.block_id as u64, 4);
        push_le(w, self.archive_offset, 8);
        push_le(w, self.compressed_size as u64, 4);
        push_le(w, self.uncompressed_size as u64, 4);
        push_le(w, self.solid_group_id as u64, 4);
        assert(w@ =~= old(w)@ + self.bytes());
        Ok(())
    }

    /// Reads an entry.
    pub fn read_from(r: &mut ByteReader) -> (result: Result<BlockIndexEntry>)
        ensures
            match (result, BlockIndexEntry::read_outcome(old(r)@)) {
                (Ok(b), Ok(m)) => b == m && final(r)@ == old(r)@.skip(24),
                (Err(e), Err(m)) => e@ == m,
                _ => false,
            },
            is_rest_of(final(r)@, old(r)@),
    {
        let ghost s = r@;
        assert(s.skip(0) =~= s);
        let all = match r.take_bytes(24) {
            Ok(v) => v,
            Err(e) => {
                return Err(e);
            },
        };
        proof {
            lemma_pow256_values();
            assert(all@.subrange(0, 4) =~= s.subrange(0, 4));
            assert(all@.subrange(4, 12) =~= s.subrange(4, 12));
            assert(all@.subrange(12, 16) =~= s.subrange(12, 16));
            assert(all@.subrange(16, 20) =~= s.subrange(16, 20));
            assert(all@.subrange(20, 24) =~= s.subrange(20, 24));
        }
        Ok(
            BlockIndexEntry {
                block_id: read_le(all, 0, 4) as u32,
                archive_offset: read_le(all, 4, 8),
                compressed_size: read_le(all, 12, 4) as u32,
                uncompressed_size: read_le(all, 16, 4) as u32,
                solid_group_id: read_le(all, 20, 4) as u32,
            },
        )
    }
}

/// An index entry is read back from the 24 bytes written for it, whatever follows them.
pub proof fn block_index_entry_round_trips(b: BlockIndexEntry, tail: Seq<u8>)
    ensures
        b.bytes().len() == 24,
        BlockIndexEntry::read_outcome(b.bytes() + tail) == Ok::<BlockIndexEntry, ErrorModel>(b),
{
    lemma_field(b.block_id as nat, 4);
    lemma_field(b.archive_offset as nat, 8);
    lemma_field(b.compressed_size as nat, 4);
    lemma_field(b.uncompressed_size as nat, 4);
    lemma_field(b.solid_group_id as nat, 4);
    let s = b.bytes() + tail;
    assert(s.subrange(0, 4) =~= le_bytes(b.block_id as nat, 4));
    assert(s.subrange(4, 12) =~= le_bytes(b.archive_offset as nat, 8));
    assert(s.subrange(12, 16) =~= le_bytes(b.compressed_size as nat, 4));
    assert(s.subrange(16, 20) =~= le_bytes(b.uncompressed_size as nat, 4));
    assert(s.subrange(20, 24) =~= le_bytes(b.solid_group_id as nat, 4));
}

// Where things stand.

/// Where the fields of a block header stand, in 28 bytes: the magic number, block, group,
/// method, flag, two bytes that are 0, both sizes, and the checksum of these.
pub proof fn block_header_layout(h: BlockHeader)
    ensures
        ({
            let s = h.bytes();
            &&& s.len() == 28
            &&& number_at(s, 0, 4) == 0xB10C_AE01
            &&& number_at(s, 4, 4) == h.block_id
            &&& number_at(s, 8, 4) == h.solid_group_id
            &&& s[12] == h.compression_method.number()
            &&& s[13] == if h.predictor_state_flag {
                1int
            } else {
                0
            }
            &&& number_at(s, 14, 2) == 0
            &&& number_at(s, 16, 4) == h.compressed_size
            &&& number_at(s, 20, 4) == h.uncompressed_size
            &&& number_at(s, 24, 4) == crc32_of(s.take(24))
        }),
{
    let s = h.bytes();
    lemma_field(BLOCK_MAGIC as nat, 4);
    lemma_field(h.block_id as nat, 4);
    lemma_field(h.solid_group_id as nat, 4);
    lemma_field(0, 2);
    lemma_field(h.compressed_size as nat, 4);
    lemma_field(h.uncompressed_size as nat, 4);
    lemma_field(crc32_of(h.fields()) as nat, 4);
    assert(s.subrange(0, 4) =~= le_bytes(BLOCK_MAGIC as nat, 4));
    assert(s.subrange(4, 8) =~= le_bytes(h.block_id as nat, 4));
    assert(s.subrange(8, 12) =~= le_bytes(h.solid_group_id as nat, 4));
    assert(s.subrange(14, 16) =~= le_bytes(0, 2));
    assert(s.subrange(16, 20) =~= le_bytes(h.compressed_size as nat, 4));
    assert(s.subrange(20, 24) =~= le_bytes(h.uncompressed_size as nat, 4));
    assert(s.subrange(24, 28) =~= le_bytes(crc32_of(h.fields()) as nat, 4));
    assert(s.take(24) =~= h.fields());
}

/// What [`BlockHeader::write_to`], [`BlockHeader::read_from_at`] and
/// [`BlockHeader::read_from`] do, one after the other.
pub proof fn block_headers_are_read_back(
    h: BlockHeader,
    w: &mut Vec<u8>,
    written: Result<()>,
    r: &mut ByteReader<'_>,
    offset: u64,
    result: Result<BlockHeader>,
    tail: Seq<u8>,
)
    requires
        call_ensures(BlockHeader::write_to, (&h, w), written),
    ensures
        written is Ok,
        final(w)@ == old(w)@ + h.bytes(),
        (old(r)@ == h.bytes() + tail && (call_ensures(BlockHeader::read_from, (r,), result)
            || call_ensures(BlockHeader::read_from_at, (r, offset), result))) ==> (result == Ok::<
            BlockHeader,
            AetherError,
        >(h) && final(r)@ == tail),
{
    block_header_round_trips(h, tail, 0);
    block_header_round_trips(h, tail, offset);
    assert((h.bytes() + tail).skip(28) =~= tail);
}

/// Where the parts of a trailer stand, in 36 bytes: the hash, and its checksum.
pub proof fn block_trailer_layout(hash: Seq<u8>)
    requires
        hash.len() == 32,
    ensures
        trailer_bytes(hash).len() == 36,
        trailer_bytes(hash).take(32) == hash,
        number_at(trailer_bytes(hash), 32, 4) == crc32_of(hash),
{
    lemma_field(crc32_of(hash) as nat, 4);
    assert(trailer_bytes(hash).take(32) =~= hash);
    assert(trailer_bytes(hash).subrange(32, 36) =~= le_bytes(crc32_of(hash) as nat, 4));
}

/// What [`BlockTrailer::write_to`], [`BlockTrailer::read_from_with_id`] and
/// [`BlockTrailer::read_from`] do, one after the other.
pub proof fn block_trailers_are_read_back(
    t: BlockTrailer,
    w: &mut Vec<u8>,
    written: Result<()>,
    r: &mut ByteReader<'_>,
    block_id: u32,
    result: Result<BlockTrailer>,
    tail: Seq<u8>,
)
    requires
        call_ensures(BlockTrailer::write_to, (&t, w), written),
    ensures
        written is Ok,
        final(w)@ == old(w)@ + trailer_bytes(t.content_blake3@),
        (old(r)@ == trailer_bytes(t.content_blake3@) + tail && (call_ensures(
            BlockTrailer::read_from,
            (r,),
            result,
        ) || call_ensures(BlockTrailer::read_from_with_id, (r, block_id), result))) ==> (result
            is Ok && result->Ok_0.content_blake3@ == t.content_blake3@ && final(r)@ == tail),
{
    let hash = t.content_blake3@;
    block_trailer_round_trips(hash, tail, 0);
    block_trailer_round_trips(hash, tail, block_id);
    assert((trailer_bytes(hash) + tail).skip(36) =~= tail);
}

/// Where the fields of a block index entry stand, in 24 bytes: block, place in the archive,
/// both sizes, and group.
pub proof fn block_index_entry_layout(b: BlockIndexEntry)
    ensures
        ({
            let s = b.bytes();
            &&& s.len() == 24
            &&& number_at(s, 0, 4) == b.block_id
            &&& number_at(s, 4, 8) == b.archive_offset
            &&& number_at(s, 12, 4) == b.compressed_size
            &&& number_at(s, 16, 4) == b.uncompressed_size
            &&& number_at(s, 20, 4) == b.solid_group_id
        }),
{
    let s = b.bytes();
    lemma_field(b.block_id as nat, 4);
    lemma_field(b.archive_offset as nat, 8);
    lemma_field(b.compressed_size as nat, 4);
    lemma_field(b.uncompressed_size as nat, 4);
    lemma_field(b.solid_group_id as nat, 4);
    assert(s.subrange(0, 4) =~= le_bytes(b.block_id as nat, 4));
    assert(s.subrange(4, 12) =~= le_bytes(b.archive_offset as nat, 8));
    assert(s.subrange(12, 16) =~= le_bytes(b.compressed_size as nat, 4));
    assert(s.subrange(16, 20) =~= le_bytes(b.uncompressed_size as nat, 4));
    assert(s.subrange(20, 24) =~= le_bytes(b.solid_group_id as nat, 4));
}

/// What [`BlockIndexEntry::write_to`] and [`BlockIndexEntry::read_from`] do, one after the
/// other.
pub proof fn block_index_entries_are_read_back(
    b: BlockIndexEntry,
    w: &mut Vec<u8>,
    written: Result<()>,
    r: &mut ByteReader<'_>,
    result: Result<BlockIndexEntry>,
    tail: Seq<u8>,
)
    requires
        call_ensures(BlockIndexEntry::write_to, (&b, w), written),
    ensures
        written is Ok,
        final(w)@ == old(w)@ + b.bytes(),
        (old(r)@ == b.bytes() + tail && call_ensures(BlockIndexEntry::read_from, (r,), result))
            ==> (result == Ok::<BlockIndexEntry, AetherError>(b) && final(r)@ == tail),
{
    block_index_entry_round_trips(b, tail);
    assert((b.bytes() + tail).skip(24) =~= tail);
}

/// What [`BlockHeader::read_from_at`] and [`BlockTrailer::read_from_with_id`] say of a header
/// or trailer of which one byte was changed: a wrong magic number at that place, a wrong
/// checksum, or an unknown method. Only the flag, as long as it stays 0 or not, and the two
/// reserved bytes may change.
pub proof fn damaged_blocks_are_refused(
    h: BlockHeader,
    i: int,
    b: u8,
    tail: Seq<u8>,
    r: &mut ByteReader<'_>,
    offset: u64,
    result: Result<BlockHeader>,
    hash: Seq<u8>,
    j: int,
    t: &mut ByteReader<'_>,
    block_id: u32,
    trailer: Result<BlockTrailer>,
)
    requires
        call_ensures(BlockHeader::read_from_at, (r, offset), result),
        0 <= i < 28,
        h.bytes()[i] != b,
        old(r)@ == h.bytes().update(i, b) + tail,
        call_ensures(BlockTrailer::read_from_with_id, (t, block_id), trailer),
        hash.len() == 32,
        0 <= j < 36,
        trailer_bytes(hash)[j] != b,
        old(t)@ == trailer_bytes(hash).update(j, b) + tail,
    ensures
        i < 4 ==> result is Err && result->Err_0@ == (ErrorModel::InvalidBlockMagic { offset }),
        4 <= i < 12 || i >= 16 ==> result is Err && result->Err_0@ is BlockCrcMismatch,
        i == 12 ==> result is Err,
        i == 13 && h.predictor_state_flag != (b != 0) ==> result is Err,
        i == 14 || i == 15 ==> result is Ok && result->Ok_0 == h,
        trailer is Err && trailer->Err_0@ == (ErrorModel::BlockCrcMismatch { block_id }),
{
    block_header_damage_is_noticed(h, tail, offset, i, b);
    block_trailer_damage_is_noticed(hash, tail, block_id, j, b);
}

} // verus!
