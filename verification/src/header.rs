//! Archive header, file entries, solid group entries and archive footer.

use crate::bytes::{
    copy_of, is_rest_of, le_bytes, le_value, lemma_le_bytes_len, lemma_le_bytes_of_value,
    lemma_le_round_trip, lemma_le_value_bound, lemma_pow256_values, push_all, push_le, read_le, same_slice, ByteReader,
};
use crate::error::{eof_model, AetherError, ErrorModel, Result};
use crate::format::{
    CompressionMethod, ContentType, PredictorId, FOOTER_MAGIC, MAGIC, MAX_BLOCK_COUNT,
    MAX_FILE_COUNT, MAX_PATH_LENGTH, MAX_SOLID_GROUP_COUNT, SAFE_PERMISSION_MASK,
};
use crate::hashing::{blake3_hash, blake3_of, crc32, crc32_notices_a_changed_byte, crc32_of};
use crate::text::{decimal, text_around_numbers};
use vstd::prelude::*;
use vstd::slice::slice_subrange;
use vstd::string::*;
use vstd::utf8::*;

verus! {

/// The number in `n` bytes of `s` from `at` on.
pub open spec fn number_at(s: Seq<u8>, at: int, n: int) -> nat {
    le_value(s.subrange(at, at + n))
}

// Archive header.

/// Fixed-size preamble at the start of every archive.
#[derive(Debug, Clone, Copy, PartialEq, Eq, Structural)]
pub struct ArchiveHeader {
    /// Bitfield of `FLAG_*` constants.
    pub flags: u16,
    /// Which predictor was used as the default for this archive.
    pub predictor_id: PredictorId,
    /// Total number of files stored in the archive.
    pub file_count: u32,
    /// Number of solid groups.
    pub solid_group_count: u32,
    /// Total number of compressed blocks.
    pub block_count: u32,
    /// Byte offset of the file table within the archive.
    pub file_table_offset: u64,
    /// Byte offset of the block index within the archive.
    pub block_index_offset: u64,
}

/// The text of a count above its limit.
pub open spec fn limit_text(count: u32, what: Seq<char>, limit: u32) -> Seq<char> {
    "Archive claims "@ + decimal(count as nat) + what + decimal(limit as nat) + ""@
}

impl ArchiveHeader {
    /// The first 40 bytes: everything but the integrity tag.
    pub open spec fn fields(self) -> Seq<u8> {
        MAGIC@ + le_bytes(self.flags as nat, 2) + le_bytes(self.predictor_id.number() as nat, 2)
            + le_bytes(self.file_count as nat, 4) + le_bytes(self.solid_group_count as nat, 4)
            + le_bytes(self.block_count as nat, 4) + le_bytes(self.file_table_offset as nat, 8)
            + le_bytes(self.block_index_offset as nat, 8)
    }

    /// The first eight bytes of the BLAKE3 hash of the other fields.
    pub open spec fn tag(self) -> Seq<u8> {
        blake3_of(self.fields())@.take(8)
    }

    /// The header as stored.
    pub open spec fn bytes(self) -> Seq<u8> {
        self.fields() + self.tag()
    }

    /// The counts are within the limits.
    pub open spec fn within_limits(self) -> bool {
        self.file_count <= MAX_FILE_COUNT && self.block_count <= MAX_BLOCK_COUNT
            && self.solid_group_count <= MAX_SOLID_GROUP_COUNT
    }

    /// The header with the fields found in `s`.
    pub open spec fn found_in(s: Seq<u8>, predictor_id: PredictorId) -> ArchiveHeader {
        ArchiveHeader {
            flags: number_at(s, 8, 2) as u16,
            predictor_id,
            file_count: number_at(s, 12, 4) as u32,
            solid_group_count: number_at(s, 16, 4) as u32,
            block_count: number_at(s, 20, 4) as u32,
            file_table_offset: number_at(s, 24, 8) as u64,
            block_index_offset: number_at(s, 32, 8) as u64,
        }
    }

    /// What reading a header from `s` gives.
    pub open spec fn read_outcome(s: Seq<u8>) -> std::result::Result<ArchiveHeader, ErrorModel> {
        if s.len() < 8 {
            Err(eof_model())
        } else if s.take(8) != MAGIC@ {
            Err(ErrorModel::InvalidMagic)
        } else if s.len() < 12 {
            Err(eof_model())
        } else {
            match PredictorId::of_number(number_at(s, 10, 2) as u16) {
                None => Err(ErrorModel::UnknownPredictorId(number_at(s, 10, 2) as u16)),
                Some(predictor_id) => {
                    let h = ArchiveHeader::found_in(s, predictor_id);
                    if s.len() < 48 {
                        Err(eof_model())
                    } else if s.subrange(40, 48) != h.tag() {
                        Err(ErrorModel::HeaderIntegrityMismatch)
                    } else if h.file_count > MAX_FILE_COUNT {
                        Err(
                            ErrorModel::ResourceLimitExceeded(
                                limit_text(
                                    h.file_count,
                                    " files, exceeding limit of "@,
                                    MAX_FILE_COUNT,
                                ),
                            ),
                        )
                    } else if h.block_count > MAX_BLOCK_COUNT {
                        Err(
                            ErrorModel::ResourceLimitExceeded(
                                limit_text(
                                    h.block_count,
                                    " blocks, exceeding limit of "@,
                                    MAX_BLOCK_COUNT,
                                ),
                            ),
                        )
                    } else if h.solid_group_count > MAX_SOLID_GROUP_COUNT {
                        Err(
                            ErrorModel::ResourceLimitExceeded(
                                limit_text(
                                    h.solid_group_count,
                                    " solid groups, exceeding limit of "@,
                                    MAX_SOLID_GROUP_COUNT,
                                ),
                            ),
                        )
                    } else {
                        Ok(h)
                    }
                },
            }
        }
    }

    /// Appends the header: 48 bytes.
    pub fn write_to(&self, w: &mut Vec<u8>) -> (r: Result<()>)
        ensures
            r is Ok,
            final(w)@ == old(w)@ + self.bytes(),
    {
        let fields = self.field_bytes();
        let tag = self.compute_blake3_tag();
        push_all(w, fields.as_slice());
        push_all(w, tag.as_slice());
        assert(w@ =~= old(w)@ + self.bytes());
        Ok(())
    }

    /// Reads a header, checking its integrity tag and its limits.
    pub fn read_from(r: &mut ByteReader) -> (result: Result<ArchiveHeader>)
        ensures
            match (result, ArchiveHeader::read_outcome(old(r)@)) {
                (Ok(h), Ok(m)) => h == m && final(r)@ == old(r)@.skip(48),
                (Err(e), Err(m)) => e@ == m,
                _ => false,
            },
            is_rest_of(final(r)@, old(r)@),
    {
        let ghost s = r@;
        assert(s.skip(0) =~= s);
        let magic = match r.take_bytes(8) {
            Ok(m) => m,
            Err(e) => {
                return Err(e);
            },
        };
        if !same_slice(magic, MAGIC.as_slice()) {
            return Err(AetherError::InvalidMagic);
        }
        let flags: u16 = match r.take_u16() {
            Ok(v) => v,
            Err(e) => {
                return Err(e);
            },
        };
        assert(s.skip(8).take(2) =~= s.subrange(8, 10));
        assert(s.skip(8).skip(2) =~= s.skip(10));
        let id: u16 = match r.take_u16() {
            Ok(v) => v,
            Err(e) => {
                return Err(e);
            },
        };
        assert(s.skip(10).take(2) =~= s.subrange(10, 12));
        assert(s.skip(10).skip(2) =~= s.skip(12));
        let predictor_id = match PredictorId::from_u16(id) {
            Ok(p) => p,
            Err(e) => {
                return Err(e);
            },
        };
        if r.remaining() < 36 {
            return Err(crate::error::unexpected_eof());
        }
        let rest = match r.take_bytes(36) {
            Ok(v) => v,
            Err(e) => {
                return Err(e);
            },
        };
        assert(s.skip(12).skip(36) =~= s.skip(48));
        proof {
            lemma_pow256_values();
            assert(rest@.subrange(0, 4) =~= s.subrange(12, 16));
            assert(rest@.subrange(4, 8) =~= s.subrange(16, 20));
            assert(rest@.subrange(8, 12) =~= s.subrange(20, 24));
            assert(rest@.subrange(12, 20) =~= s.subrange(24, 32));
            assert(rest@.subrange(20, 28) =~= s.subrange(32, 40));
            assert(rest@.subrange(28, 36) =~= s.subrange(40, 48));
        }
        let header = ArchiveHeader {
            flags,
            predictor_id,
            file_count: read_le(rest, 0, 4) as u32,
            solid_group_count: read_le(rest, 4, 4) as u32,
            block_count: read_le(rest, 8, 4) as u32,
            file_table_offset: read_le(rest, 12, 8),
            block_index_offset: read_le(rest, 20, 8),
        };
        let tag = header.compute_blake3_tag();
        if !same_slice(slice_subrange(rest, 28, 36), tag.as_slice()) {
            return Err(AetherError::HeaderIntegrityMismatch);
        }
        if header.file_count > MAX_FILE_COUNT {
            return Err(
                AetherError::ResourceLimitExceeded(
                    text_around_numbers(
                        "Archive claims ",
                        header.file_count as u64,
                        " files, exceeding limit of ",
                        MAX_FILE_COUNT as u64,
                        "",
                    ),
                ),
            );
        }
        if header.block_count > MAX_BLOCK_COUNT {
            return Err(
                AetherError::ResourceLimitExceeded(
                    text_around_numbers(
                        "Archive claims ",
                        header.block_count as u64,
                        " blocks, exceeding limit of ",
                        MAX_BLOCK_COUNT as u64,
                        "",
                    ),
                ),
            );
        }
        if header.solid_group_count > MAX_SOLID_GROUP_COUNT {
            return Err(
                AetherError::ResourceLimitExceeded(
                    text_around_numbers(
                        "Archive claims ",
                        header.solid_group_count as u64,
                        " solid groups, exceeding limit of ",
                        MAX_SOLID_GROUP_COUNT as u64,
                        "",
                    ),
                ),
            );
        }
        Ok(header)
    }

    fn field_bytes(&self) -> (v: Vec<u8>)
        ensures
            v@ == self.fields(),
    {
        let mut v: Vec<u8> = Vec::new();
        push_all(&mut v, MAGIC.as_slice());
        push_le(&mut v, self.flags as u64, 2);
        push_le(&mut v, self.predictor_id.to_u16() as u64, 2);
        push_le(&mut v, self.file_count as u64, 4);
        push_le(&mut v, self.solid_group_count as u64, 4);
        push_le(&mut v, self.block_count as u64, 4);
        push_le(&mut v, self.file_table_offset, 8);
        push_le(&mut v, self.block_index_offset, 8);
        assert(v@ =~= self.fields());
        v
    }

    /// The integrity tag: the BLAKE3 hash of the other fields, cut to eight bytes.
    fn compute_blake3_tag(&self) -> (tag: Vec<u8>)
        ensures
            tag@ == self.tag(),
    {
        let fields = self.field_bytes();
        let hash = blake3_hash(fields.as_slice());
        let tag = copy_of(slice_subrange(hash.as_slice(), 0, 8));
        assert(tag@ =~= self.tag());
        tag
    }
}

/// The length of an integer field and the number read back from it.
pub proof fn lemma_field(n: nat, len: nat)
    requires
        len == 2 && n < 0x1_0000 || len == 4 && n < 0x1_0000_0000 || len == 8 && n
            < 0x1_0000_0000_0000_0000,
    ensures
        le_bytes(n, len).len() == len,
        le_value(le_bytes(n, len)) == n,
{
    lemma_pow256_values();
    lemma_le_round_trip(n, len);
}

/// The bytes of a field are the digits of its number.
pub proof fn lemma_number_at(s: Seq<u8>, at: int, n: int)
    requires
        0 <= at <= at + n <= s.len(),
        n == 2 || n == 4 || n == 8,
    ensures
        le_bytes(number_at(s, at, n), n as nat) == s.subrange(at, at + n),
        n == 2 ==> number_at(s, at, n) < 0x1_0000,
        n == 4 ==> number_at(s, at, n) < 0x1_0000_0000,
        n == 8 ==> number_at(s, at, n) < 0x1_0000_0000_0000_0000,
{
    lemma_pow256_values();
    lemma_le_bytes_of_value(s.subrange(at, at + n));
    lemma_le_value_bound(s.subrange(at, at + n));
}

/// A header within the limits is read back from the 48 bytes written for it, whatever
/// follows them.
pub proof fn archive_header_round_trips(h: ArchiveHeader, tail: Seq<u8>)
    requires
        h.within_limits(),
    ensures
        h.bytes().len() == 48,
        ArchiveHeader::read_outcome(h.bytes() + tail) == Ok::<ArchiveHeader, ErrorModel>(h),
{
    lemma_field(h.flags as nat, 2);
    lemma_field(h.predictor_id.number() as nat, 2);
    lemma_field(h.file_count as nat, 4);
    lemma_field(h.solid_group_count as nat, 4);
    lemma_field(h.block_count as nat, 4);
    lemma_field(h.file_table_offset as nat, 8);
    lemma_field(h.block_index_offset as nat, 8);
    let s = h.bytes() + tail;
    assert(s.take(8) =~= MAGIC@);
    assert(s.subrange(8, 10) =~= le_bytes(h.flags as nat, 2));
    assert(s.subrange(10, 12) =~= le_bytes(h.predictor_id.number() as nat, 2));
    assert(s.subrange(12, 16) =~= le_bytes(h.file_count as nat, 4));
    assert(s.subrange(16, 20) =~= le_bytes(h.solid_group_count as nat, 4));
    assert(s.subrange(20, 24) =~= le_bytes(h.block_count as nat, 4));
    assert(s.subrange(24, 32) =~= le_bytes(h.file_table_offset as nat, 8));
    assert(s.subrange(32, 40) =~= le_bytes(h.block_index_offset as nat, 8));
    assert(s.subrange(40, 48) =~= h.tag());
}

// Solid group entries.

/// Describes one solid group: a set of similar files compressed together.
#[derive(Debug, Clone, Copy, PartialEq, Eq, Structural)]
pub struct SolidGroupEntry {
    /// Unique group identifier.
    pub group_id: u32,
    /// Semantic content type of files in this group.
    pub content_type: ContentType,
    /// Dominant compression method for blocks in this group.
    pub compression_method: CompressionMethod,
    /// Index of the first block in this group.
    pub first_block_idx: u32,
    /// Number of blocks in this group.
    pub block_count: u32,
    /// Number of files in this group.
    pub file_count: u32,
}

impl SolidGroupEntry {
    /// The entry as stored.
    pub open spec fn bytes(self) -> Seq<u8> {
        le_bytes(self.group_id as nat, 4) + le_bytes(self.content_type.number() as nat, 2)
            + le_bytes(self.compression_method.number() as nat, 2) + le_bytes(
            self.first_block_idx as nat,
            4,
        ) + le_bytes(self.block_count as nat, 4) + le_bytes(self.file_count as nat, 4) + le_bytes(
            0,
            4,
        )
    }

    /// What reading an entry from `s` gives. Of the two bytes of the method only the
    /// first is looked at.
    pub open spec fn read_outcome(s: Seq<u8>) -> std::result::Result<SolidGroupEntry, ErrorModel> {
        if s.len() < 6 {
            Err(eof_model())
        } else {
            match ContentType::of_number(number_at(s, 4, 2) as u16) {
                None => Err(ErrorModel::UnknownContentType(number_at(s, 4, 2) as u16)),
                Some(content_type) => if s.len() < 8 {
                    Err(eof_model())
                } else {
                    match CompressionMethod::of_number(s[6]) {
                        None => Err(ErrorModel::UnknownCompressionMethod(s[6])),
                        Some(compression_method) => if s.len() < 24 {
                            Err(eof_model())
                        } else {
                            Ok(
                                SolidGroupEntry {
                                    group_id: number_at(s, 0, 4) as u32,
                                    content_type,
                                    compression_method,
                                    first_block_idx: number_at(s, 8, 4) as u32,
                                    block_count: number_at(s, 12, 4) as u32,
                                    file_count: number_at(s, 16, 4) as u32,
                                },
                            )
                        },
                    }
                },
            }
        }
    }

    /// Appends the entry: 24 bytes.
    pub fn write_to(&self, w: &mut Vec<u8>) -> (r: Result<()>)
        ensures
            r is Ok,
            final(w)@ == old(w)@ + self.bytes(),
    {
        push_le(w, self.group_id as u64, 4);
        push_le(w, self.content_type.to_u16() as u64, 2);
        push_le(w, self.compression_method.to_u8() as u64, 2);
        push_le(w, self.first_block_idx as u64, 4);
        push_le(w, self.block_count as u64, 4);
        push_le(w, self.file_count as u64, 4);
        push_le(w, 0, 4);
        assert(w@ =~= old(w)@ + self.bytes());
        Ok(())
    }

    /// Reads an entry.
    pub fn read_from(r: &mut ByteReader) -> (result: Result<SolidGroupEntry>)
        ensures
            match (result, SolidGroupEntry::read_outcome(old(r)@)) {
                (Ok(g), Ok(m)) => g == m && final(r)@ == old(r)@.skip(24),
                (Err(e), Err(m)) => e@ == m,
                _ => false,
            },
            is_rest_of(final(r)@, old(r)@),
    {
        let ghost s = r@;
        proof {
            lemma_pow256_values();
            assert(s.skip(0) =~= s);
        }
        let group_id: u32 = match r.take_u32() {
            Ok(v) => v,
            Err(e) => {
                return Err(e);
            },
        };
        assert(s.take(4) =~= s.subrange(0, 4));
        let raw_type: u16 = match r.take_u16() {
            Ok(v) => v,
            Err(e) => {
                return Err(e);
            },
        };
        assert(s.skip(4).take(2) =~= s.subrange(4, 6));
        assert(s.skip(4).skip(2) =~= s.skip(6));
        let content_type = match ContentType::from_u16(raw_type) {
            Ok(t) => t,
            Err(e) => {
                return Err(e);
            },
        };
        let method = match r.take_bytes(2) {
            Ok(v) => v,
            Err(e) => {
                return Err(e);
            },
        };
        assert(method@[0] == s[6]);
        assert(s.skip(6).skip(2) =~= s.skip(8));
        let compression_method = match CompressionMethod::from_u8(method[0]) {
            Ok(m) => m,
            Err(e) => {
                return Err(e);
            },
        };
        let rest = match r.take_bytes(16) {
            Ok(v) => v,
            Err(e) => {
                return Err(e);
            },
        };
        proof {
            assert(s.skip(8).skip(16) =~= s.skip(24));
            assert(rest@.subrange(0, 4) =~= s.subrange(8, 12));
            assert(rest@.subrange(4, 8) =~= s.subrange(12, 16));
            assert(rest@.subrange(8, 12) =~= s.subrange(16, 20));
        }
        Ok(
            SolidGroupEntry {
                group_id,
                content_type,
                compression_method,
                first_block_idx: read_le(rest, 0, 4) as u32,
                block_count: read_le(rest, 4, 4) as u32,
                file_count: read_le(rest, 8, 4) as u32,
            },
        )
    }
}

/// A solid group entry is read back from the 24 bytes written for it, whatever follows
/// them.
pub proof fn solid_group_entry_round_trips(g: SolidGroupEntry, tail: Seq<u8>)
    ensures
        g.bytes().len() == 24,
        SolidGroupEntry::read_outcome(g.bytes() + tail) == Ok::<SolidGroupEntry, ErrorModel>(g),
{
    lemma_field(g.group_id as nat, 4);
    lemma_field(g.content_type.number() as nat, 2);
    lemma_field(g.compression_method.number() as nat, 2);
    lemma_field(g.first_block_idx as nat, 4);
    lemma_field(g.block_count as nat, 4);
    lemma_field(g.file_count as nat, 4);
    lemma_field(0, 4);
    let s = g.bytes() + tail;
    assert(s.subrange(0, 4) =~= le_bytes(g.group_id as nat, 4));
    assert(s.subrange(4, 6) =~= le_bytes(g.content_type.number() as nat, 2));
    assert(s[6] == le_bytes(g.compression_method.number() as nat, 2)[0]);
    assert(s.subrange(8, 12) =~= le_bytes(g.first_block_idx as nat, 4));
    assert(s.subrange(12, 16) =~= le_bytes(g.block_count as nat, 4));
    assert(s.subrange(16, 20) =~= le_bytes(g.file_count as nat, 4));
}

// Archive footer.

/// Fixed-size trailer at the end of every archive.
#[derive(Debug, Clone, Copy, PartialEq, Eq, Structural)]
pub struct ArchiveFooter {
    /// Byte offset of the block index within the archive.
    pub block_index_offset: u64,
    /// Byte offset of the file table within the archive.
    pub file_table_offset: u64,
    /// Total number of compressed blocks.
    pub block_count: u32,
    /// Total number of files.
    pub file_count: u32,
}

impl ArchiveFooter {
    /// The first 24 bytes: everything but the checksum and the magic number.
    pub open spec fn fields(self) -> Seq<u8> {
        le_bytes(self.block_index_offset as nat, 8) + le_bytes(self.file_table_offset as nat, 8)
            + le_bytes(self.block_count as nat, 4) + le_bytes(self.file_count as nat, 4)
    }

    /// The footer as stored.
    pub open spec fn bytes(self) -> Seq<u8> {
        self.fields() + le_bytes(crc32_of(self.fields()) as nat, 4) + le_bytes(
            FOOTER_MAGIC as nat,
            4,
        )
    }

    /// The footer with the fields found in `s`.
    pub open spec fn found_in(s: Seq<u8>) -> ArchiveFooter {
        ArchiveFooter {
            block_index_offset: number_at(s, 0, 8) as u64,
            file_table_offset: number_at(s, 8, 8) as u64,
            block_count: number_at(s, 16, 4) as u32,
            file_count: number_at(s, 20, 4) as u32,
        }
    }

    /// What reading a footer from `s` gives.
    pub open spec fn read_outcome(s: Seq<u8>) -> std::result::Result<ArchiveFooter, ErrorModel> {
        let f = ArchiveFooter::found_in(s);
        let stored = number_at(s, 24, 4) as u32;
        if s.len() < 32 {
            Err(eof_model())
        } else if number_at(s, 28, 4) != FOOTER_MAGIC {
            Err(ErrorModel::InvalidFooterMagic)
        } else if stored != crc32_of(f.fields()) {
            Err(
                ErrorModel::HeaderCrcMismatch {
                    expected: stored,
                    actual: crc32_of(f.fields()),
                },
            )
        } else {
            Ok(f)
        }
    }

    fn field_bytes(&self) -> (v: Vec<u8>)
        ensures
            v@ == self.fields(),
    {
        let mut v: Vec<u8> = Vec::new();
        push_le(&mut v, self.block_index_offset, 8);
        push_le(&mut v, self.file_table_offset, 8);
        push_le(&mut v, self.block_count as u64, 4);
        push_le(&mut v, self.file_count as u64, 4);
        assert(v@ =~= self.fields());
        v
    }

    /// Appends the footer: 32 bytes.
    pub fn write_to(&self, w: &mut Vec<u8>) -> (r: Result<()>)
        ensures
            r is Ok,
            final(w)@ == old(w)@ + self.bytes(),
    {
        let fields = self.field_bytes();
        let crc: u32 = crc32(fields.as_slice());
        push_all(w, fields.as_slice());
        push_le(w, crc as u64, 4);
        push_le(w, FOOTER_MAGIC as u64, 4);
        assert(w@ =~= old(w)@ + self.bytes());
        Ok(())
    }

    /// Reads a footer, checking its magic number and its checksum.
    pub fn read_from(r: &mut ByteReader) -> (result: Result<ArchiveFooter>)
        ensures
            match (result, ArchiveFooter::read_outcome(old(r)@)) {
                (Ok(f), Ok(m)) => f == m && final(r)@ == old(r)@.skip(32),
                (Err(e), Err(m)) => e@ == m,
                _ => false,
            },
            is_rest_of(final(r)@, old(r)@),
    {
        let ghost s = r@;
        proof {
            lemma_pow256_values();
            assert(s.skip(0) =~= s);
        }
        let all = match r.take_bytes(32) {
            Ok(v) => v,
            Err(e) => {
                return Err(e);
            },
        };
        proof {
            assert(all@.subrange(0, 8) =~= s.subrange(0, 8));
            assert(all@.subrange(8, 16) =~= s.subrange(8, 16));
            assert(all@.subrange(16, 20) =~= s.subrange(16, 20));
            assert(all@.subrange(20, 24) =~= s.subrange(20, 24));
            assert(all@.subrange(24, 28) =~= s.subrange(24, 28));
            assert(all@.subrange(28, 32) =~= s.subrange(28, 32));
        }
        let footer = ArchiveFooter {
            block_index_offset: read_le(all, 0, 8),
            file_table_offset: read_le(all, 8, 8),
            block_count: read_le(all, 16, 4) as u32,
            file_count: read_le(all, 20, 4) as u32,
        };
        let stored_crc: u32 = read_le(all, 24, 4) as u32;
        if read_le(all, 28, 4) != FOOTER_MAGIC as u64 {
            return Err(AetherError::InvalidFooterMagic);
        }
        let fields = footer.field_bytes();
        let computed_crc: u32 = crc32(fields.as_slice());
        if stored_crc != computed_crc {
            return Err(
                AetherError::HeaderCrcMismatch { expected: stored_crc, actual: computed_crc },
            );
        }
        Ok(footer)
    }
}

/// A footer is read back from the 32 bytes written for it, whatever follows them.
pub proof fn archive_footer_round_trips(f: ArchiveFooter, tail: Seq<u8>)
    ensures
        f.bytes().len() == 32,
        ArchiveFooter::read_outcome(f.bytes() + tail) == Ok::<ArchiveFooter, ErrorModel>(f),
{
    lemma_field(f.block_index_offset as nat, 8);
    lemma_field(f.file_table_offset as nat, 8);
    lemma_field(f.block_count as nat, 4);
    lemma_field(f.file_count as nat, 4);
    lemma_field(crc32_of(f.fields()) as nat, 4);
    lemma_field(FOOTER_MAGIC as nat, 4);
    let s = f.bytes() + tail;
    assert(s.subrange(0, 8) =~= le_bytes(f.block_index_offset as nat, 8));
    assert(s.subrange(8, 16) =~= le_bytes(f.file_table_offset as nat, 8));
    assert(s.subrange(16, 20) =~= le_bytes(f.block_count as nat, 4));
    assert(s.subrange(20, 24) =~= le_bytes(f.file_count as nat, 4));
    assert(s.subrange(24, 28) =~= le_bytes(crc32_of(f.fields()) as nat, 4));
    assert(s.subrange(28, 32) =~= le_bytes(FOOTER_MAGIC as nat, 4));
}

/// One changed byte of a footer as written is noticed: as a wrong magic number where it
/// stands there, else by the checksum.
pub proof fn footer_damage_is_noticed(f: ArchiveFooter, tail: Seq<u8>, i: int, b: u8)
    requires
        0 <= i < 32,
        f.bytes()[i] != b,
    ensures
        match ArchiveFooter::read_outcome(f.bytes().update(i, b) + tail) {
            Err(ErrorModel::InvalidFooterMagic) => i >= 28,
            Err(ErrorModel::HeaderCrcMismatch { expected, actual }) => i < 28,
            _ => false,
        },
{
    archive_footer_round_trips(f, tail);
    let s = f.bytes() + tail;
    let t = f.bytes().update(i, b) + tail;
    let crc = crc32_of(f.fields());
    lemma_field(crc as nat, 4);
    lemma_number_at(t, 0, 8);
    lemma_number_at(t, 8, 8);
    lemma_number_at(t, 16, 4);
    lemma_number_at(t, 20, 4);
    lemma_number_at(t, 24, 4);
    lemma_number_at(t, 28, 4);
    lemma_number_at(s, 24, 4);
    lemma_number_at(s, 28, 4);
    let found = ArchiveFooter::found_in(t);
    assert(f.fields().len() == 24) by {
        lemma_le_bytes_len(f.block_index_offset as nat, 8);
        lemma_le_bytes_len(f.file_table_offset as nat, 8);
        lemma_le_bytes_len(f.block_count as nat, 4);
        lemma_le_bytes_len(f.file_count as nat, 4);
    }
    assert(found.fields() =~= t.take(24));
    if i < 24 {
        assert(t.take(24) =~= f.fields().update(i, b));
        assert(t.subrange(24, 28) =~= s.subrange(24, 28));
        assert(t.subrange(28, 32) =~= s.subrange(28, 32));
        crc32_notices_a_changed_byte(f.fields(), i, b);
    } else {
        assert(t.take(24) =~= f.fields());
        if i < 28 {
            assert(t.subrange(28, 32) =~= s.subrange(28, 32));
            assert(t.subrange(24, 28)[i - 24] != s.subrange(24, 28)[i - 24]);
        } else {
            assert(t.subrange(28, 32)[i - 28] != s.subrange(28, 32)[i - 28]);
        }
    }
}

// File entries.

/// What `String::from_utf8` says about bytes that are not UTF-8.
pub uninterp spec fn utf8_error_text(bytes: Seq<u8>) -> Seq<char>;

/// `bytes` as text, by `String::from_utf8`, which accepts exactly valid UTF-8; an error
/// is given as the text that the standard library describes it with.
#[verifier::external_body]
fn utf8_text(bytes: Vec<u8>) -> (r: std::result::Result<String, String>)
    ensures
        match r {
            Ok(s) => valid_utf8(bytes@) && s@ == decode_utf8(bytes@),
            Err(text) => !valid_utf8(bytes@) && text@ == utf8_error_text(bytes@),
        },
{
    String::from_utf8(bytes).map_err(|e| e.to_string())
}

/// Metadata for a single file within the archive.
#[derive(Debug, Clone, PartialEq, Eq)]
pub struct FileEntry {
    /// Relative file path within the archive (UTF-8, forward-slash separated).
    pub path: String,
    /// Original uncompressed file size in bytes.
    pub original_size: u64,
    /// BLAKE3 hash of the complete original file content.
    pub blake3_hash: [u8; 32],
    /// Solid group this file belongs to.
    pub solid_group_id: u32,
    /// Index of the first block containing this file's data.
    pub chunk_start_idx: u32,
    /// Number of contiguous blocks containing this file's data.
    pub chunk_count: u32,
    /// Unix file permissions (e.g. 0o644).
    pub permissions: u32,
    /// Last modification time as Unix timestamp (seconds since epoch).
    pub mtime: i64,
}

/// The value of a [`FileEntry`].
pub struct FileEntryModel {
    pub path: Seq<char>,
    pub original_size: u64,
    pub blake3_hash: Seq<u8>,
    pub solid_group_id: u32,
    pub chunk_start_idx: u32,
    pub chunk_count: u32,
    pub permissions: u32,
    pub mtime: i64,
}

impl View for FileEntry {
    type V = FileEntryModel;

    open spec fn view(&self) -> FileEntryModel {
        FileEntryModel {
            path: self.path@,
            original_size: self.original_size,
            blake3_hash: self.blake3_hash@,
            solid_group_id: self.solid_group_id,
            chunk_start_idx: self.chunk_start_idx,
            chunk_count: self.chunk_count,
            permissions: self.permissions,
            mtime: self.mtime,
        }
    }
}

/// A path separator.
pub open spec fn is_separator(b: u8) -> bool {
    b == 0x2F || b == 0x5C
}

/// The bytes at `i` and `i + 1` are a path component `..`.
pub open spec fn parent_component_at(path: Seq<u8>, i: int) -> bool {
    &&& 0 <= i
    &&& i + 2 <= path.len()
    &&& path[i] == 0x2E
    &&& path[i + 1] == 0x2E
    &&& i == 0 || is_separator(path[i - 1])
    &&& i + 2 == path.len() || is_separator(path[i + 2])
}

/// A path that could lead out of the extraction directory: one with a null byte, an
/// absolute one, one with a drive letter, or one with a component `..`.
pub open spec fn unsafe_path(path: Seq<u8>) -> bool {
    ||| path.contains(0)
    ||| path.len() > 0 && is_separator(path[0])
    ||| path.len() >= 2 && path[1] == 0x3A
    ||| exists|i: int| parent_component_at(path, i)
}

/// Tells whether a path could lead out of the extraction directory.
fn is_unsafe_path(path: &[u8]) -> (r: bool)
    ensures
        r == unsafe_path(path@),
{
    let n: usize = path.len();
    if n > 0 && (path[0] == 0x2F || path[0] == 0x5C) {
        return true;
    }
    if n >= 2 && path[1] == 0x3A {
        return true;
    }
    let mut i: usize = 0;
    while i < n
        invariant
            i <= n == path@.len(),
            forall|k: int| 0 <= k < i ==> path@[k] != 0,
            forall|k: int| 0 <= k < i ==> !parent_component_at(path@, k),
        decreases n - i,
    {
        if path[i] == 0 {
            assert(path@[i as int] == 0);
            return true;
        }
        if n - i >= 2 && path[i] == 0x2E && path[i + 1] == 0x2E && (i == 0 || path[i - 1] == 0x2F
            || path[i - 1] == 0x5C) && (n - i == 2 || path[i + 2] == 0x2F || path[i + 2] == 0x5C) {
            assert(parent_component_at(path@, i as int));
            return true;
        }
        i = i + 1;
    }
    false
}

impl FileEntryModel {
    /// The fields after the path: 64 bytes.
    pub open spec fn fixed_fields(self) -> Seq<u8> {
        le_bytes(self.original_size as nat, 8) + self.blake3_hash + le_bytes(
            self.solid_group_id as nat,
            4,
        ) + le_bytes(self.chunk_start_idx as nat, 4) + le_bytes(self.chunk_count as nat, 4)
            + le_bytes(self.permissions as nat, 4) + le_bytes((self.mtime as u64) as nat, 8)
    }

    /// The entry as stored: the length of the path in two bytes, the path, and the other
    /// fields.
    pub open spec fn bytes(self) -> Seq<u8> {
        let path = encode_utf8(self.path);
        le_bytes(path.len(), 2) + path + self.fixed_fields()
    }

    /// The entry as stored after one with the path `previous`: the length of the prefix
    /// the paths share, the length of the rest, the rest, and the other fields.
    pub open spec fn prefixed_bytes(self, previous: Seq<char>) -> Seq<u8> {
        let path = encode_utf8(self.path);
        let shared = shared_prefix(path, encode_utf8(previous));
        le_bytes(shared, 2) + le_bytes((path.len() - shared) as nat, 2) + path.skip(shared as int)
            + self.fixed_fields()
    }

    /// What reading an entry from `s` gives. Of the permissions only the safe bits are
    /// kept.
    pub open spec fn read_outcome(s: Seq<u8>) -> std::result::Result<FileEntryModel, ErrorModel> {
        let n = number_at(s, 0, 2) as int;
        let path = s.subrange(2, 2 + n);
        if s.len() < 2 {
            Err(eof_model())
        } else if n > MAX_PATH_LENGTH {
            Err(
                ErrorModel::ResourceLimitExceeded(
                    "File path length "@ + decimal(n as nat) + " exceeds maximum "@ + decimal(
                        MAX_PATH_LENGTH as nat,
                    ) + ""@,
                ),
            )
        } else if s.len() < 2 + n {
            Err(eof_model())
        } else if !valid_utf8(path) {
            Err(ErrorModel::Decompression("Invalid UTF-8 path: "@ + utf8_error_text(path)))
        } else if unsafe_path(path) {
            Err(ErrorModel::PathTraversal(decode_utf8(path)))
        } else if s.len() < 66 + n {
            Err(eof_model())
        } else {
            Ok(FileEntryModel::found_in(decode_utf8(path), s.subrange(2 + n, 66 + n)))
        }
    }

    /// The entry with the fields found in `fixed`.
    pub open spec fn found_in(path: Seq<char>, fixed: Seq<u8>) -> FileEntryModel {
        FileEntryModel {
            path,
            original_size: number_at(fixed, 0, 8) as u64,
            blake3_hash: fixed.subrange(8, 40),
            solid_group_id: number_at(fixed, 40, 4) as u32,
            chunk_start_idx: number_at(fixed, 44, 4) as u32,
            chunk_count: number_at(fixed, 48, 4) as u32,
            permissions: number_at(fixed, 52, 4) as u32 & SAFE_PERMISSION_MASK,
            mtime: (number_at(fixed, 56, 8) as u64) as i64,
        }
    }

    /// What reading an entry that stands after one with the path `previous` gives.
    pub open spec fn read_prefixed_outcome(
        s: Seq<u8>,
        previous: Seq<u8>,
    ) -> std::result::Result<FileEntryModel, ErrorModel> {
        let prefix = number_at(s, 0, 2);
        let suffix = number_at(s, 2, 2);
        let path = previous.take(prefix as int) + s.subrange(4, (4 + suffix) as int);
        if s.len() < 4 {
            Err(eof_model())
        } else if prefix > previous.len() || !is_char_boundary(previous, prefix as int) || prefix
            + suffix > MAX_PATH_LENGTH {
            Err(
                ErrorModel::ResourceLimitExceeded(
                    "Invalid compressed path lengths: prefix="@ + decimal(prefix) + ", suffix="@
                        + decimal(suffix) + ""@,
                ),
            )
        } else if s.len() < 68 + suffix {
            Err(eof_model())
        } else {
            FileEntryModel::read_outcome(
                le_bytes(path.len(), 2) + path + s.subrange(
                    (4 + suffix) as int,
                    (68 + suffix) as int,
                ),
            )
        }
    }
}

/// How many bytes `a` and `b` have in common from `k` on, counted from their starts.
pub open spec fn common_bytes(a: Seq<u8>, b: Seq<u8>, k: nat) -> nat
    decreases a.len() - k,
{
    if k < a.len() && k < b.len() && a[k as int] == b[k as int] {
        common_bytes(a, b, k + 1)
    } else {
        k
    }
}

/// The last character boundary of `a` at or before `k`.
pub open spec fn boundary_before(a: Seq<u8>, k: nat) -> nat
    decreases k,
{
    if k == 0 || is_char_boundary(a, k as int) {
        k
    } else {
        boundary_before(a, (k - 1) as nat)
    }
}

/// The length of the longest prefix of whole characters that `a` shares with `b`.
pub open spec fn shared_prefix(a: Seq<u8>, b: Seq<u8>) -> nat {
    boundary_before(a, common_bytes(a, b, 0))
}

proof fn lemma_common_bytes(a: Seq<u8>, b: Seq<u8>, k: nat)
    requires
        k <= a.len(),
        k <= b.len(),
        a.take(k as int) == b.take(k as int),
    ensures
        k <= common_bytes(a, b, k) <= a.len(),
        common_bytes(a, b, k) <= b.len(),
        a.take(common_bytes(a, b, k) as int) == b.take(common_bytes(a, b, k) as int),
    decreases a.len() - k,
{
    if k < a.len() && k < b.len() && a[k as int] == b[k as int] {
        assert(a.take((k + 1) as int) =~= a.take(k as int).push(a[k as int]));
        assert(b.take((k + 1) as int) =~= b.take(k as int).push(b[k as int]));
        lemma_common_bytes(a, b, k + 1);
    }
}

proof fn lemma_boundary_before(a: Seq<u8>, k: nat)
    requires
        valid_utf8(a),
    ensures
        boundary_before(a, k) <= k,
        is_char_boundary(a, boundary_before(a, k) as int),
    decreases k,
{
    if k == 0 || is_char_boundary(a, k as int) {
        is_char_boundary_start_end_of_seq(a);
    } else {
        lemma_boundary_before(a, (k - 1) as nat);
    }
}

/// The shared prefix is one of both texts, and ends at a character boundary of both.
proof fn lemma_shared_prefix(a: Seq<u8>, b: Seq<u8>)
    requires
        valid_utf8(a),
        valid_utf8(b),
    ensures
        shared_prefix(a, b) <= a.len(),
        shared_prefix(a, b) <= b.len(),
        a.take(shared_prefix(a, b) as int) == b.take(shared_prefix(a, b) as int),
        is_char_boundary(a, shared_prefix(a, b) as int),
        is_char_boundary(b, shared_prefix(a, b) as int),
{
    let k = common_bytes(a, b, 0);
    let j = shared_prefix(a, b);
    assert(a.take(0) =~= b.take(0));
    lemma_common_bytes(a, b, 0);
    lemma_boundary_before(a, k);
    assert(a.take(j as int) =~= a.take(k as int).take(j as int));
    assert(b.take(j as int) =~= b.take(k as int).take(j as int));
    valid_utf8_split(a, j as int);
    assert(a.subrange(0, j as int) =~= b.subrange(0, j as int)) by {
        assert(a.subrange(0, j as int) =~= a.take(j as int));
        assert(b.subrange(0, j as int) =~= b.take(j as int));
    }
    if j == b.len() {
        is_char_boundary_start_end_of_seq(b);
    } else {
        let rest = b.subrange(j as int, b.len() as int);
        if !valid_utf8(rest) {
            partial_valid_partial_invalid_utf8(b, j as int);
        }
        is_char_boundary_start_end_of_seq(rest);
        is_char_boundary_iff_not_is_continuation_byte(rest, 0);
        is_char_boundary_iff_not_is_continuation_byte(b, j as int);
        assert(rest[0] == b[j as int]);
    }
}

impl FileEntry {
    fn shared_prefix_len(&self, previous_path: &str) -> (n: usize)
        ensures
            n == shared_prefix(encode_utf8(self.path@), encode_utf8(previous_path@)),
            n <= encode_utf8(self.path@).len(),
    {
        let path = self.path.as_str();
        let a = path.as_bytes();
        let b = previous_path.as_bytes();
        let mut n: usize = 0;
        while n < a.len() && n < b.len() && a[n] == b[n]
            invariant
                n <= a@.len(),
                n <= b@.len(),
                common_bytes(a@, b@, 0) == common_bytes(a@, b@, n as nat),
            decreases a@.len() - n,
        {
            n = n + 1;
        }
        while n > 0 && !path.is_char_boundary(n)
            invariant
                n <= a@.len(),
                a@ == path.spec_bytes(),
                shared_prefix(a@, b@) == boundary_before(a@, n as nat),
            decreases n,
        {
            n = n - 1;
        }
        n
    }

    /// How many bytes the path takes when stored after one with the path
    /// `previous_path`.
    pub fn prefixed_path_size(&self, previous_path: &str) -> (n: usize)
        requires
            encode_utf8(self.path@).len() + 4 <= usize::MAX,
        ensures
            n == 4 + encode_utf8(self.path@).len() - shared_prefix(
                encode_utf8(self.path@),
                encode_utf8(previous_path@),
            ),
    {
        let shared: usize = self.shared_prefix_len(previous_path);
        4 + (self.path.as_str().as_bytes().len() - shared)
    }

    fn push_fixed_fields(&self, w: &mut Vec<u8>)
        ensures
            final(w)@ == old(w)@ + self@.fixed_fields(),
    {
        push_le(w, self.original_size, 8);
        push_all(w, self.blake3_hash.as_slice());
        push_le(w, self.solid_group_id as u64, 4);
        push_le(w, self.chunk_start_idx as u64, 4);
        push_le(w, self.chunk_count as u64, 4);
        push_le(w, self.permissions as u64, 4);
        push_le(w, self.mtime as u64, 8);
        assert(w@ =~= old(w)@ + self@.fixed_fields());
    }

    /// Appends the entry.
    pub fn write_to(&self, w: &mut Vec<u8>) -> (r: Result<()>)
        ensures
            r is Ok,
            final(w)@ == old(w)@ + self@.bytes(),
    {
        let path = self.path.as_str().as_bytes();
        push_le(w, path.len() as u64, 2);
        push_all(w, path);
        self.push_fixed_fields(w);
        assert(w@ =~= old(w)@ + self@.bytes());
        Ok(())
    }

    /// Reads an entry, refusing paths that could lead out of the extraction directory.
    pub fn read_from(r: &mut ByteReader) -> (result: Result<FileEntry>)
        ensures
            match (result, FileEntryModel::read_outcome(old(r)@)) {
                (Ok(f), Ok(m)) => f@ == m && final(r)@ == old(r)@.skip(
                    (66 + number_at(old(r)@, 0, 2)) as int,
                ),
                (Err(e), Err(m)) => e@ == m,
                _ => false,
            },
            is_rest_of(final(r)@, old(r)@),
    {
        let ghost s = r@;
        proof {
            lemma_pow256_values();
            assert(s.skip(0) =~= s);
        }
        let path_len: usize = match r.take_u16() {
            Ok(v) => v as usize,
            Err(e) => {
                return Err(e);
            },
        };
        assert(s.take(2) =~= s.subrange(0, 2));
        if path_len > MAX_PATH_LENGTH {
            return Err(
                AetherError::ResourceLimitExceeded(
                    text_around_numbers(
                        "File path length ",
                        path_len as u64,
                        " exceeds maximum ",
                        MAX_PATH_LENGTH as u64,
                        "",
                    ),
                ),
            );
        }
        let path_bytes = match r.take_bytes(path_len) {
            Ok(v) => v,
            Err(e) => {
                return Err(e);
            },
        };
        assert(path_bytes@ =~= s.subrange(2, 2 + path_len));
        assert(s.skip(2).skip(path_len as int) =~= s.skip(2 + path_len));
        let path = match utf8_text(copy_of(path_bytes)) {
            Ok(p) => p,
            Err(text) => {
                let mut message = String::from_str("Invalid UTF-8 path: ");
                message.append(text.as_str());
                return Err(AetherError::Decompression(message));
            },
        };
        if is_unsafe_path(path_bytes) {
            return Err(AetherError::PathTraversal(path));
        }
        let fixed = match r.take_bytes(64) {
            Ok(v) => v,
            Err(e) => {
                return Err(e);
            },
        };
        assert(fixed@ =~= s.subrange(2 + path_len, 66 + path_len));
        assert(s.skip(2 + path_len).skip(64) =~= s.skip(66 + path_len));
        let mut blake3_hash: [u8; 32] = [0;32];
        let mut i: usize = 0;
        while i < 32
            invariant
                i <= 32,
                fixed@.len() == 64,
                forall|k: int| 0 <= k < i ==> blake3_hash@[k] == fixed@[8 + k],
            decreases 32 - i,
        {
            blake3_hash[i] = fixed[8 + i];
            i = i + 1;
        }
        assert(blake3_hash@ =~= fixed@.subrange(8, 40));
        let entry = FileEntry {
            path,
            original_size: read_le(fixed, 0, 8),
            blake3_hash,
            solid_group_id: read_le(fixed, 40, 4) as u32,
            chunk_start_idx: read_le(fixed, 44, 4) as u32,
            chunk_count: read_le(fixed, 48, 4) as u32,
            permissions: read_le(fixed, 52, 4) as u32 & SAFE_PERMISSION_MASK,
            mtime: read_le(fixed, 56, 8) as i64,
        };
        Ok(entry)
    }

    /// Appends the entry, leaving out the part of its path that it shares with
    /// `previous_path`. Fails where a part of the path has 65536 bytes or more: where that
    /// is the shared one, nothing is written, else its length is.
    pub fn write_prefixed(&self, w: &mut Vec<u8>, previous_path: &str) -> (r: Result<()>)
        ensures
            ({
                let path = encode_utf8(self.path@);
                let shared = shared_prefix(path, encode_utf8(previous_path@));
                match r {
                    Ok(()) => shared <= 0xFFFF && path.len() - shared <= 0xFFFF && final(w)@
                        == old(w)@ + self@.prefixed_bytes(previous_path@),
                    Err(e) => if shared > 0xFFFF {
                        final(w)@ == old(w)@ && e@ == ErrorModel::ResourceLimitExceeded(
                            "Path prefix exceeds u16"@,
                        )
                    } else {
                        path.len() - shared > 0xFFFF && final(w)@ == old(w)@ + le_bytes(shared, 2)
                            && e@ == ErrorModel::ResourceLimitExceeded("Path suffix exceeds u16"@)
                    },
                }
            }),
    {
        let path = self.path.as_str().as_bytes();
        let shared: usize = self.shared_prefix_len(previous_path);
        let suffix = slice_subrange(path, shared, path.len());
        if shared > 0xFFFF {
            return Err(AetherError::ResourceLimitExceeded("Path prefix exceeds u16".to_string()));
        }
        push_le(w, shared as u64, 2);
        if suffix.len() > 0xFFFF {
            return Err(AetherError::ResourceLimitExceeded("Path suffix exceeds u16".to_string()));
        }
        push_le(w, suffix.len() as u64, 2);
        push_all(w, suffix);
        self.push_fixed_fields(w);
        assert(suffix@ =~= path@.skip(shared as int));
        assert(w@ =~= old(w)@ + self@.prefixed_bytes(previous_path@));
        Ok(())
    }

    /// Reads an entry stored after one with the path `previous_path`.
    pub fn read_prefixed(r: &mut ByteReader, previous_path: &str) -> (result: Result<FileEntry>)
        ensures
            match (
                result,
                FileEntryModel::read_prefixed_outcome(old(r)@, encode_utf8(previous_path@)),
            ) {
                (Ok(f), Ok(m)) => f@ == m && final(r)@ == old(r)@.skip(
                    (68 + number_at(old(r)@, 2, 2)) as int,
                ),
                (Err(e), Err(m)) => e@ == m,
                _ => false,
            },
            is_rest_of(final(r)@, old(r)@),
    {
        let ghost s = r@;
        proof {
            lemma_pow256_values();
            assert(s.skip(0) =~= s);
        }
        let prefix_len: usize = match r.take_u16() {
            Ok(v) => v as usize,
            Err(e) => {
                return Err(e);
            },
        };
        assert(s.take(2) =~= s.subrange(0, 2));
        let suffix_len: usize = match r.take_u16() {
            Ok(v) => v as usize,
            Err(e) => {
                return Err(e);
            },
        };
        assert(s.skip(2).take(2) =~= s.subrange(2, 4));
        assert(s.skip(2).skip(2) =~= s.skip(4));
        let previous = previous_path.as_bytes();
        if prefix_len > previous.len() || !previous_path.is_char_boundary(prefix_len) || prefix_len
            + suffix_len > MAX_PATH_LENGTH {
            return Err(
                AetherError::ResourceLimitExceeded(
                    text_around_numbers(
                        "Invalid compressed path lengths: prefix=",
                        prefix_len as u64,
                        ", suffix=",
                        suffix_len as u64,
                        "",
                    ),
                ),
            );
        }
        let suffix = match r.take_bytes(suffix_len) {
            Ok(v) => v,
            Err(e) => {
                return Err(e);
            },
        };
        assert(suffix@ =~= s.subrange(4, 4 + suffix_len));
        assert(s.skip(4).skip(suffix_len as int) =~= s.skip(4 + suffix_len));
        let fixed = match r.take_bytes(64) {
            Ok(v) => v,
            Err(e) => {
                return Err(e);
            },
        };
        assert(fixed@ =~= s.subrange(4 + suffix_len, 68 + suffix_len));
        assert(s.skip(4 + suffix_len).skip(64) =~= s.skip(68 + suffix_len));
        let mut canonical: Vec<u8> = Vec::new();
        push_le(&mut canonical, (prefix_len + suffix_len) as u64, 2);
        push_all(&mut canonical, slice_subrange(previous, 0, prefix_len));
        push_all(&mut canonical, suffix);
        push_all(&mut canonical, fixed);
        proof {
            let path = previous@.take(prefix_len as int) + s.subrange(4, 4 + suffix_len);
            assert(canonical@ =~= le_bytes(path.len(), 2) + path + fixed@);
        }
        let mut canonical_reader = ByteReader::new(canonical.as_slice());
        FileEntry::read_from(&mut canonical_reader)
    }
}

/// The bits and bytes of a modification time.
proof fn lemma_mtime(m: i64)
    ensures
        (m as u64) as i64 == m,
{
    assert((m as u64) as i64 == m) by (bit_vector);
}

proof fn lemma_fixed_fields(f: FileEntryModel)
    requires
        f.blake3_hash.len() == 32,
        f.permissions & SAFE_PERMISSION_MASK == f.permissions,
    ensures
        f.fixed_fields().len() == 64,
        FileEntryModel::found_in(f.path, f.fixed_fields()) == f,
{
    lemma_field(f.original_size as nat, 8);
    lemma_field(f.solid_group_id as nat, 4);
    lemma_field(f.chunk_start_idx as nat, 4);
    lemma_field(f.chunk_count as nat, 4);
    lemma_field(f.permissions as nat, 4);
    lemma_field((f.mtime as u64) as nat, 8);
    lemma_mtime(f.mtime);
    let s = f.fixed_fields();
    assert(s.subrange(0, 8) =~= le_bytes(f.original_size as nat, 8));
    assert(s.subrange(8, 40) =~= f.blake3_hash);
    assert(s.subrange(40, 44) =~= le_bytes(f.solid_group_id as nat, 4));
    assert(s.subrange(44, 48) =~= le_bytes(f.chunk_start_idx as nat, 4));
    assert(s.subrange(48, 52) =~= le_bytes(f.chunk_count as nat, 4));
    assert(s.subrange(52, 56) =~= le_bytes(f.permissions as nat, 4));
    assert(s.subrange(56, 64) =~= le_bytes((f.mtime as u64) as nat, 8));
}

/// An entry that an archive may hold: a safe path of at most [`MAX_PATH_LENGTH`] bytes
/// and no permission bits beyond the safe ones.
pub open spec fn storable(f: FileEntryModel) -> bool {
    &&& f.blake3_hash.len() == 32
    &&& f.permissions & SAFE_PERMISSION_MASK == f.permissions
    &&& encode_utf8(f.path).len() <= MAX_PATH_LENGTH
    &&& !unsafe_path(encode_utf8(f.path))
}

/// A storable entry is read back from the bytes written for it, whatever follows them.
pub proof fn file_entry_round_trips(f: FileEntryModel, tail: Seq<u8>)
    requires
        storable(f),
    ensures
        f.bytes().len() == 66 + encode_utf8(f.path).len(),
        FileEntryModel::read_outcome(f.bytes() + tail) == Ok::<FileEntryModel, ErrorModel>(f),
{
    let path = encode_utf8(f.path);
    let n = path.len() as int;
    lemma_field(path.len(), 2);
    lemma_fixed_fields(f);
    encode_utf8_valid_utf8(f.path);
    encode_utf8_decode_utf8(f.path);
    let s = f.bytes() + tail;
    assert(s.subrange(0, 2) =~= le_bytes(path.len(), 2));
    assert(s.subrange(2, 2 + n) =~= path);
    assert(s.subrange(2 + n, 66 + n) =~= f.fixed_fields());
}

/// A storable entry is read back from the bytes written for it after an entry with the
/// path `previous`, whatever follows them.
pub proof fn prefixed_entry_round_trips(f: FileEntryModel, previous: Seq<char>, tail: Seq<u8>)
    requires
        storable(f),
    ensures
        FileEntryModel::read_prefixed_outcome(
            f.prefixed_bytes(previous) + tail,
            encode_utf8(previous),
        ) == Ok::<FileEntryModel, ErrorModel>(f),
{
    let path = encode_utf8(f.path);
    let prev = encode_utf8(previous);
    let shared = shared_prefix(path, prev);
    let rest = (path.len() - shared) as nat;
    encode_utf8_valid_utf8(f.path);
    encode_utf8_valid_utf8(previous);
    lemma_shared_prefix(path, prev);
    lemma_field(shared, 2);
    lemma_field(rest, 2);
    lemma_fixed_fields(f);
    let s = f.prefixed_bytes(previous) + tail;
    assert(s.subrange(0, 2) =~= le_bytes(shared, 2));
    assert(s.subrange(2, 4) =~= le_bytes(rest, 2));
    assert(s.subrange(4, (4 + rest) as int) =~= path.skip(shared as int));
    assert(s.subrange((4 + rest) as int, (68 + rest) as int) =~= f.fixed_fields());
    assert(prev.take(shared as int) + path.skip(shared as int) =~= path);
    file_entry_round_trips(f, Seq::empty());
    assert(f.bytes() + Seq::<u8>::empty() =~= f.bytes());
}

// Where things stand.

/// Where the fields of an archive header stand, in 48 bytes: the magic bytes, then flags,
/// predictor, files, solid groups, blocks, file table and block index, and the first eight
/// bytes of the hash of all these.
pub proof fn archive_header_layout(h: ArchiveHeader)
    ensures
        ({
            let s = h.bytes();
            &&& s.len() == 48
            &&& s[0] == 0xAE && s[1] == 0x74 && s[2] == 0x68 && s[3] == 0x65 && s[4] == 0x72 && s[5]
                == 0 && s[6] == 1 && s[7] == 0
            &&& number_at(s, 8, 2) == h.flags
            &&& number_at(s, 10, 2) == h.predictor_id.number()
            &&& number_at(s, 12, 4) == h.file_count
            &&& number_at(s, 16, 4) == h.solid_group_count
            &&& number_at(s, 20, 4) == h.block_count
            &&& number_at(s, 24, 8) == h.file_table_offset
            &&& number_at(s, 32, 8) == h.block_index_offset
            &&& s.subrange(40, 48) == blake3_of(s.take(40))@.take(8)
        }),
{
    let s = h.bytes();
    lemma_field(h.flags as nat, 2);
    lemma_field(h.predictor_id.number() as nat, 2);
    lemma_field(h.file_count as nat, 4);
    lemma_field(h.solid_group_count as nat, 4);
    lemma_field(h.block_count as nat, 4);
    lemma_field(h.file_table_offset as nat, 8);
    lemma_field(h.block_index_offset as nat, 8);
    assert(s.take(8) =~= MAGIC@);
    assert(s.take(8)[0] == s[0] && s.take(8)[1] == s[1] && s.take(8)[2] == s[2] && s.take(8)[3]
        == s[3] && s.take(8)[4] == s[4] && s.take(8)[5] == s[5] && s.take(8)[6] == s[6] && s.take(
        8,
    )[7] == s[7]);
    assert(s.subrange(8, 10) =~= le_bytes(h.flags as nat, 2));
    assert(s.subrange(10, 12) =~= le_bytes(h.predictor_id.number() as nat, 2));
    assert(s.subrange(12, 16) =~= le_bytes(h.file_count as nat, 4));
    assert(s.subrange(16, 20) =~= le_bytes(h.solid_group_count as nat, 4));
    assert(s.subrange(20, 24) =~= le_bytes(h.block_count as nat, 4));
    assert(s.subrange(24, 32) =~= le_bytes(h.file_table_offset as nat, 8));
    assert(s.subrange(32, 40) =~= le_bytes(h.block_index_offset as nat, 8));
    assert(s.take(40) =~= h.fields());
    assert(s.subrange(40, 48) =~= h.tag());
}

/// What [`ArchiveHeader::write_to`] and [`ArchiveHeader::read_from`] do, one after the other:
/// 48 bytes are appended, and read back as the header, unless a count is above its limit: a
/// million files, ten million blocks, a hundred thousand groups.
pub proof fn archive_headers_are_read_back(
    h: ArchiveHeader,
    w: &mut Vec<u8>,
    written: Result<()>,
    r: &mut ByteReader<'_>,
    result: Result<ArchiveHeader>,
    tail: Seq<u8>,
)
    requires
        call_ensures(ArchiveHeader::write_to, (&h, w), written),
    ensures
        written is Ok,
        final(w)@ == old(w)@ + h.bytes(),
        old(r)@ == h.bytes() + tail && call_ensures(ArchiveHeader::read_from, (r,), result) ==> (
        result is Ok <==> h.file_count <= 1_000_000 && h.block_count <= 10_000_000
            && h.solid_group_count <= 100_000),
        (old(r)@ == h.bytes() + tail && call_ensures(ArchiveHeader::read_from, (r,), result)
            && result is Ok) ==> (result->Ok_0 == h && final(r)@ == tail),
{
    if old(r)@ == h.bytes() + tail && call_ensures(ArchiveHeader::read_from, (r,), result) {
        archive_header_layout(h);
        let s = h.bytes() + tail;
        assert(s.skip(48) =~= tail);
        if h.within_limits() {
            archive_header_round_trips(h, tail);
        } else {
            assert(s.subrange(8, 10) =~= h.bytes().subrange(8, 10));
            assert(s.subrange(10, 12) =~= h.bytes().subrange(10, 12));
            assert(s.subrange(12, 16) =~= h.bytes().subrange(12, 16));
            assert(s.subrange(16, 20) =~= h.bytes().subrange(16, 20));
            assert(s.subrange(20, 24) =~= h.bytes().subrange(20, 24));
            assert(s.subrange(24, 32) =~= h.bytes().subrange(24, 32));
            assert(s.subrange(32, 40) =~= h.bytes().subrange(32, 40));
        }
    }
}

/// Where the fields of a solid group entry stand, in 24 bytes: group, content type, method,
/// first block, blocks, files, and four bytes that are 0.
pub proof fn solid_group_entry_layout(g: SolidGroupEntry)
    ensures
        ({
            let s = g.bytes();
            &&& s.len() == 24
            &&& number_at(s, 0, 4) == g.group_id
            &&& number_at(s, 4, 2) == g.content_type.number()
            &&& number_at(s, 6, 2) == g.compression_method.number()
            &&& number_at(s, 8, 4) == g.first_block_idx
            &&& number_at(s, 12, 4) == g.block_count
            &&& number_at(s, 16, 4) == g.file_count
            &&& number_at(s, 20, 4) == 0
        }),
{
    let s = g.bytes();
    lemma_field(g.group_id as nat, 4);
    lemma_field(g.content_type.number() as nat, 2);
    lemma_field(g.compression_method.number() as nat, 2);
    lemma_field(g.first_block_idx as nat, 4);
    lemma_field(g.block_count as nat, 4);
    lemma_field(g.file_count as nat, 4);
    lemma_field(0, 4);
    assert(s.subrange(0, 4) =~= le_bytes(g.group_id as nat, 4));
    assert(s.subrange(4, 6) =~= le_bytes(g.content_type.number() as nat, 2));
    assert(s.subrange(6, 8) =~= le_bytes(g.compression_method.number() as nat, 2));
    assert(s.subrange(8, 12) =~= le_bytes(g.first_block_idx as nat, 4));
    assert(s.subrange(12, 16) =~= le_bytes(g.block_count as nat, 4));
    assert(s.subrange(16, 20) =~= le_bytes(g.file_count as nat, 4));
    assert(s.subrange(20, 24) =~= le_bytes(0, 4));
}

/// What [`SolidGroupEntry::write_to`] and [`SolidGroupEntry::read_from`] do, one after the
/// other.
pub proof fn solid_group_entries_are_read_back(
    g: SolidGroupEntry,
    w: &mut Vec<u8>,
    written: Result<()>,
    r: &mut ByteReader<'_>,
    result: Result<SolidGroupEntry>,
    tail: Seq<u8>,
)
    requires
        call_ensures(SolidGroupEntry::write_to, (&g, w), written),
    ensures
        written is Ok,
        final(w)@ == old(w)@ + g.bytes(),
        (old(r)@ == g.bytes() + tail && call_ensures(SolidGroupEntry::read_from, (r,), result))
            ==> (result == Ok::<SolidGroupEntry, AetherError>(g) && final(r)@ == tail),
{
    solid_group_entry_round_trips(g, tail);
    assert((g.bytes() + tail).skip(24) =~= tail);
}

/// Where the fields of a footer stand, in 32 bytes: block index, file table, blocks, files,
/// the checksum of these, and the magic number.
pub proof fn archive_footer_layout(f: ArchiveFooter)
    ensures
        ({
            let s = f.bytes();
            &&& s.len() == 32
            &&& number_at(s, 0, 8) == f.block_index_offset
            &&& number_at(s, 8, 8) == f.file_table_offset
            &&& number_at(s, 16, 4) == f.block_count
            &&& number_at(s, 20, 4) == f.file_count
            &&& number_at(s, 24, 4) == crc32_of(s.take(24))
            &&& number_at(s, 28, 4) == 0xAE45_4E44
        }),
{
    let s = f.bytes();
    lemma_field(f.block_index_offset as nat, 8);
    lemma_field(f.file_table_offset as nat, 8);
    lemma_field(f.block_count as nat, 4);
    lemma_field(f.file_count as nat, 4);
    lemma_field(crc32_of(f.fields()) as nat, 4);
    lemma_field(FOOTER_MAGIC as nat, 4);
    assert(s.subrange(0, 8) =~= le_bytes(f.block_index_offset as nat, 8));
    assert(s.subrange(8, 16) =~= le_bytes(f.file_table_offset as nat, 8));
    assert(s.subrange(16, 20) =~= le_bytes(f.block_count as nat, 4));
    assert(s.subrange(20, 24) =~= le_bytes(f.file_count as nat, 4));
    assert(s.subrange(24, 28) =~= le_bytes(crc32_of(f.fields()) as nat, 4));
    assert(s.subrange(28, 32) =~= le_bytes(FOOTER_MAGIC as nat, 4));
    assert(s.take(24) =~= f.fields());
}

/// What [`ArchiveFooter::write_to`] and [`ArchiveFooter::read_from`] do, one after the other.
pub proof fn archive_footers_are_read_back(
    f: ArchiveFooter,
    w: &mut Vec<u8>,
    written: Result<()>,
    r: &mut ByteReader<'_>,
    result: Result<ArchiveFooter>,
    tail: Seq<u8>,
)
    requires
        call_ensures(ArchiveFooter::write_to, (&f, w), written),
    ensures
        written is Ok,
        final(w)@ == old(w)@ + f.bytes(),
        (old(r)@ == f.bytes() + tail && call_ensures(ArchiveFooter::read_from, (r,), result)) ==> (
        result == Ok::<ArchiveFooter, AetherError>(f) && final(r)@ == tail),
{
    archive_footer_round_trips(f, tail);
    assert((f.bytes() + tail).skip(32) =~= tail);
}

/// Where the fields of a file entry stand: the length of the path and the path, then in 64
/// bytes size, hash, group, first chunk, chunks, permissions and modification time.
pub proof fn file_entry_layout(f: FileEntryModel)
    requires
        f.blake3_hash.len() == 32,
        encode_utf8(f.path).len() <= 4096,
    ensures
        ({
            let s = f.bytes();
            let n = encode_utf8(f.path).len() as int;
            &&& s.len() == 66 + n
            &&& number_at(s, 0, 2) == n
            &&& s.subrange(2, 2 + n) == encode_utf8(f.path)
            &&& number_at(s, 2 + n, 8) == f.original_size
            &&& s.subrange(10 + n, 42 + n) == f.blake3_hash
            &&& number_at(s, 42 + n, 4) == f.solid_group_id
            &&& number_at(s, 46 + n, 4) == f.chunk_start_idx
            &&& number_at(s, 50 + n, 4) == f.chunk_count
            &&& number_at(s, 54 + n, 4) == f.permissions
            &&& number_at(s, 58 + n, 8) == f.mtime as u64
        }),
{
    let s = f.bytes();
    let path = encode_utf8(f.path);
    let n = path.len() as int;
    lemma_field(path.len(), 2);
    lemma_field(f.original_size as nat, 8);
    lemma_field(f.solid_group_id as nat, 4);
    lemma_field(f.chunk_start_idx as nat, 4);
    lemma_field(f.chunk_count as nat, 4);
    lemma_field(f.permissions as nat, 4);
    lemma_field((f.mtime as u64) as nat, 8);
    assert(s.subrange(0, 2) =~= le_bytes(path.len(), 2));
    assert(s.subrange(2, 2 + n) =~= path);
    assert(s.subrange(2 + n, 10 + n) =~= le_bytes(f.original_size as nat, 8));
    assert(s.subrange(10 + n, 42 + n) =~= f.blake3_hash);
    assert(s.subrange(42 + n, 46 + n) =~= le_bytes(f.solid_group_id as nat, 4));
    assert(s.subrange(46 + n, 50 + n) =~= le_bytes(f.chunk_start_idx as nat, 4));
    assert(s.subrange(50 + n, 54 + n) =~= le_bytes(f.chunk_count as nat, 4));
    assert(s.subrange(54 + n, 58 + n) =~= le_bytes(f.permissions as nat, 4));
    assert(s.subrange(58 + n, 66 + n) =~= le_bytes((f.mtime as u64) as nat, 8));
}

/// A path that an entry is read with cannot lead out: it is relative, has no drive letter,
/// no null byte and no component `..`, and at most 4096 bytes. Of the permissions only those
/// to read, write and execute are kept.
pub proof fn entries_that_are_read_are_safe(s: Seq<u8>, i: int)
    requires
        FileEntryModel::read_outcome(s) is Ok,
    ensures
        ({
            let f = FileEntryModel::read_outcome(s)->Ok_0;
            let n = number_at(s, 0, 2) as int;
            let path = s.subrange(2, 2 + n);
            &&& 0 <= n <= 4096
            &&& s.len() >= 66 + n
            &&& f.path == decode_utf8(path)
            &&& n > 0 ==> path[0] != 0x2F && path[0] != 0x5C
            &&& n > 1 ==> path[1] != 0x3A
            &&& 0 <= i < n ==> path[i] != 0
            &&& !(0 <= i && i + 1 < n && path[i] == 0x2E && path[i + 1] == 0x2E && (i == 0 || path[i
                - 1] == 0x2F || path[i - 1] == 0x5C) && (i + 2 == n || path[i + 2] == 0x2F || path[i
                + 2] == 0x5C))
            &&& f.permissions == number_at(s, 2 + n + 52, 4) as u32 & 0x1FF
            &&& f.permissions <= 0x1FF
        }),
{
    let n = number_at(s, 0, 2) as int;
    let path = s.subrange(2, 2 + n);
    let fixed = s.subrange(2 + n, 66 + n);
    if 0 <= i < n {
        assert(path.contains(path[i]) == true);
    }
    assert(!parent_component_at(path, i));
    assert(fixed.subrange(52, 56) =~= s.subrange(2 + n + 52, 2 + n + 56));
    let x = number_at(s, 2 + n + 52, 4) as u32;
    assert(x & 0x1FF <= 0x1FF) by (bit_vector);
}

/// Ordinary paths are not refused: those that do not start with a separator, have no colon
/// in second place, no null byte and no two dots in a row.
pub proof fn ordinary_paths_are_safe(path: Seq<u8>)
    requires
        path.len() > 0 ==> path[0] != 0x2F && path[0] != 0x5C,
        path.len() > 1 ==> path[1] != 0x3A,
        forall|i: int| 0 <= i < path.len() ==> #[trigger] path[i] != 0,
        forall|i: int| 0 <= i < path.len() - 1 ==> !(#[trigger] path[i] == 0x2E && path[i + 1] == 0x2E),
    ensures
        !unsafe_path(path),
{
    if exists|i: int| parent_component_at(path, i) {
        let i = choose|i: int| parent_component_at(path, i);
        assert(path[i] == 0x2E && path[i + 1] == 0x2E);
    }
}

/// What [`FileEntry::write_to`] and [`FileEntry::read_from`] do, one after the other, for an
/// entry with an ordinary path.
pub proof fn file_entries_are_read_back(
    f: FileEntry,
    w: &mut Vec<u8>,
    written: Result<()>,
    r: &mut ByteReader<'_>,
    result: Result<FileEntry>,
    tail: Seq<u8>,
)
    requires
        call_ensures(FileEntry::write_to, (&f, w), written),
        storable(f@),
    ensures
        written is Ok,
        final(w)@ == old(w)@ + f@.bytes(),
        (old(r)@ == f@.bytes() + tail && call_ensures(FileEntry::read_from, (r,), result)) ==> (
        result is Ok && result->Ok_0@ == f@ && final(r)@ == tail),
{
    file_entry_round_trips(f@, tail);
    file_entry_layout(f@);
    let n = encode_utf8(f@.path).len() as int;
    let s = f@.bytes() + tail;
    assert(s.subrange(0, 2) =~= f@.bytes().subrange(0, 2));
    assert(s.skip(66 + n) =~= tail);
}

/// What [`FileEntry::write_prefixed`] and [`FileEntry::read_prefixed`] do, one after the
/// other. Only what the path does not share with the one before is written, in whole
/// characters, behind the two lengths.
pub proof fn prefixed_entries_are_read_back(
    f: FileEntry,
    w: &mut Vec<u8>,
    previous: &str,
    written: Result<()>,
    r: &mut ByteReader<'_>,
    result: Result<FileEntry>,
    tail: Seq<u8>,
)
    requires
        call_ensures(FileEntry::write_prefixed, (&f, w, previous), written),
        storable(f@),
    ensures
        written is Ok,
        final(w)@ == old(w)@ + f@.prefixed_bytes(previous@),
        (old(r)@ == f@.prefixed_bytes(previous@) + tail && call_ensures(
            FileEntry::read_prefixed,
            (r, previous),
            result,
        )) ==> (result is Ok && result->Ok_0@ == f@),
        f@.prefixed_bytes(previous@).len() == 68 + encode_utf8(f@.path).len() - shared_prefix(
            encode_utf8(f@.path),
            encode_utf8(previous@),
        ),
{
    let path = encode_utf8(f@.path);
    encode_utf8_valid_utf8(f@.path);
    encode_utf8_valid_utf8(previous@);
    lemma_shared_prefix(path, encode_utf8(previous@));
    prefixed_entry_round_trips(f@, previous@, tail);
    lemma_fixed_fields(f@);
    lemma_field(shared_prefix(path, encode_utf8(previous@)), 2);
    lemma_field((path.len() - shared_prefix(path, encode_utf8(previous@))) as nat, 2);
}

/// The shared part of two paths is all they have in common, but for bytes of a character that
/// is not shared as a whole.
pub proof fn shared_parts_are_the_longest(a: Seq<u8>, b: Seq<u8>, k: int)
    requires
        valid_utf8(a),
        valid_utf8(b),
        0 <= k <= a.len(),
        k <= b.len(),
        a.take(k) == b.take(k),
        is_char_boundary(a, k),
    ensures
        k <= shared_prefix(a, b) <= a.len(),
        shared_prefix(a, b) <= b.len(),
        a.take(shared_prefix(a, b) as int) == b.take(shared_prefix(a, b) as int),
{
    lemma_shared_prefix(a, b);
    lemma_common_at_least(a, b, 0, k as nat);
    lemma_boundary_at_least(a, common_bytes(a, b, 0), k as nat);
}

proof fn lemma_common_at_least(a: Seq<u8>, b: Seq<u8>, from: nat, k: nat)
    requires
        from <= k <= a.len(),
        k <= b.len(),
        a.take(k as int) == b.take(k as int),
    ensures
        common_bytes(a, b, from) >= k,
    decreases k - from,
{
    if from < k {
        assert(a.take(k as int)[from as int] == a[from as int]);
        assert(b.take(k as int)[from as int] == b[from as int]);
        lemma_common_at_least(a, b, from + 1, k);
    } else {
        lemma_common_grows(a, b, from);
    }
}

proof fn lemma_common_grows(a: Seq<u8>, b: Seq<u8>, from: nat)
    ensures
        common_bytes(a, b, from) >= from,
    decreases a.len() - from,
{
    if from < a.len() && from < b.len() && a[from as int] == b[from as int] {
        lemma_common_grows(a, b, from + 1);
    }
}

proof fn lemma_boundary_at_least(a: Seq<u8>, from: nat, k: nat)
    requires
        k <= from,
        is_char_boundary(a, k as int),
    ensures
        boundary_before(a, from) >= k,
    decreases from,
{
    if !(from == 0 || is_char_boundary(a, from as int)) {
        lemma_boundary_at_least(a, (from - 1) as nat, k);
    }
}

/// A number in two, four or eight bytes is the sum of its bytes, the first the lowest.
pub proof fn numbers_stand_low_byte_first(s: Seq<u8>, at: int)
    requires
        0 <= at,
    ensures
        at + 2 <= s.len() ==> number_at(s, at, 2) == s[at] + 256 * s[at + 1],
        at + 4 <= s.len() ==> number_at(s, at, 4) == s[at] + 256 * s[at + 1] + 65_536 * s[at + 2]
            + 16_777_216 * s[at + 3],
        at + 8 <= s.len() ==> number_at(s, at, 8) == number_at(s, at, 4) + 4_294_967_296
            * number_at(s, at + 4, 4),
{
    if at + 2 <= s.len() {
        crate::bytes::lowest_byte_comes_first(s.subrange(at, at + 2));
    }
    if at + 4 <= s.len() {
        crate::bytes::lowest_byte_comes_first(s.subrange(at, at + 4));
    }
    if at + 8 <= s.len() {
        crate::bytes::lowest_byte_comes_first(s.subrange(at, at + 8));
        crate::bytes::lowest_byte_comes_first(s.subrange(at + 4, at + 8));
    }
}

/// What [`ArchiveFooter::read_from`] says of a footer of which one byte was changed.
pub proof fn damaged_footers_are_refused(
    f: ArchiveFooter,
    i: int,
    b: u8,
    tail: Seq<u8>,
    r: &mut ByteReader<'_>,
    result: Result<ArchiveFooter>,
)
    requires
        call_ensures(ArchiveFooter::read_from, (r,), result),
        0 <= i < 32,
        f.bytes()[i] != b,
        old(r)@ == f.bytes().update(i, b) + tail,
    ensures
        result is Err,
        i < 28 ==> result->Err_0@ is HeaderCrcMismatch,
        i >= 28 ==> result->Err_0@ == ErrorModel::InvalidFooterMagic,
{
    footer_damage_is_noticed(f, tail, i, b);
}

/// What [`ArchiveHeader::read_from`] accepts: the magic bytes, a known predictor, the tag that
/// is the start of the hash of the 40 bytes before it, and counts within their limits; the
/// header holds what stands there.
pub proof fn accepted_headers_are_checked(r: &mut ByteReader<'_>, result: Result<ArchiveHeader>)
    requires
        call_ensures(ArchiveHeader::read_from, (r,), result),
        result is Ok,
    ensures
        ({
            let s = old(r)@;
            let h = result->Ok_0;
            &&& s.len() >= 48
            &&& s.take(48) == h.bytes()
            &&& s.subrange(40, 48) == blake3_of(s.take(40))@.take(8)
            &&& h.file_count <= 1_000_000 && h.block_count <= 10_000_000 && h.solid_group_count
                <= 100_000
            &&& final(r)@ == s.skip(48)
        }),
{
    let s = old(r)@;
    let h = result->Ok_0;
    lemma_number_at(s, 8, 2);
    lemma_number_at(s, 10, 2);
    lemma_number_at(s, 12, 4);
    lemma_number_at(s, 16, 4);
    lemma_number_at(s, 20, 4);
    lemma_number_at(s, 24, 8);
    lemma_number_at(s, 32, 8);
    assert(PredictorId::of_number(number_at(s, 10, 2) as u16) == Some(h.predictor_id));
    assert(h.predictor_id.number() == number_at(s, 10, 2));
    assert(s.take(40) =~= h.fields());
    assert(s.take(48) =~= h.bytes());
}

/// What [`FileEntry::read_from`] accepts: a path that cannot lead out of a directory, and of
/// the permissions those to read, write and execute.
pub proof fn accepted_entries_are_safe(r: &mut ByteReader<'_>, result: Result<FileEntry>, i: int)
    requires
        call_ensures(FileEntry::read_from, (r,), result),
        result is Ok,
    ensures
        ({
            let s = old(r)@;
            let n = number_at(s, 0, 2) as int;
            let path = s.subrange(2, 2 + n);
            &&& 0 <= n <= 4096
            &&& result->Ok_0.path@ == decode_utf8(path)
            &&& n > 0 ==> path[0] != 0x2F && path[0] != 0x5C
            &&& n > 1 ==> path[1] != 0x3A
            &&& 0 <= i < n ==> path[i] != 0
            &&& !(0 <= i && i + 1 < n && path[i] == 0x2E && path[i + 1] == 0x2E && (i == 0 || path[i
                - 1] == 0x2F || path[i - 1] == 0x5C) && (i + 2 == n || path[i + 2] == 0x2F || path[i
                + 2] == 0x5C))
            &&& result->Ok_0.permissions <= 0x1FF
        }),
{
    entries_that_are_read_are_safe(old(r)@, i);
}

} // verus!
