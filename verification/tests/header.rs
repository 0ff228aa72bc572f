use aether_core::bytes::ByteReader;
use aether_core::format::{
    ARCHIVE_FOOTER_SIZE, ARCHIVE_HEADER_SIZE, FLAG_SOLID_ARCHIVE, SOLID_GROUP_ENTRY_SIZE,
};
use aether_core::header::{ArchiveFooter, ArchiveHeader, FileEntry, SolidGroupEntry};
use aether_core::{AetherError, CompressionMethod, ContentType, PredictorId};

#[test]
fn archive_header_roundtrip() {
    let header = ArchiveHeader {
        flags: FLAG_SOLID_ARCHIVE,
        predictor_id: PredictorId::ContextMixer,
        file_count: 42,
        solid_group_count: 3,
        block_count: 100,
        file_table_offset: 48,
        block_index_offset: 999_999,
    };

    let mut buf = Vec::new();
    header.write_to(&mut buf).unwrap();
    assert_eq!(buf.len(), ARCHIVE_HEADER_SIZE);

    let mut cursor = ByteReader::new(&buf);
    let decoded = ArchiveHeader::read_from(&mut cursor).unwrap();
    assert_eq!(header, decoded);
}

#[test]
fn archive_header_bad_magic() {
    let mut buf = vec![0u8; ARCHIVE_HEADER_SIZE];
    buf[0] = 0xFF; // corrupt magic
    let mut cursor = ByteReader::new(&buf);
    assert!(matches!(
        ArchiveHeader::read_from(&mut cursor),
        Err(AetherError::InvalidMagic)
    ));
}

#[test]
fn archive_header_bad_integrity() {
    let header = ArchiveHeader {
        flags: 0,
        predictor_id: PredictorId::Order0,
        file_count: 1,
        solid_group_count: 1,
        block_count: 1,
        file_table_offset: 48,
        block_index_offset: 100,
    };

    let mut buf = Vec::new();
    header.write_to(&mut buf).unwrap();

    // Corrupt one data byte (not the integrity tag itself)
    buf[12] ^= 0xFF;

    let mut cursor = ByteReader::new(&buf);
    assert!(matches!(
        ArchiveHeader::read_from(&mut cursor),
        Err(AetherError::HeaderIntegrityMismatch)
    ));
}

#[test]
fn file_entry_roundtrip() {
    let entry = FileEntry {
        path: "src/main.rs".into(),
        original_size: 12345,
        blake3_hash: [0xAB; 32],
        solid_group_id: 0,
        chunk_start_idx: 0,
        chunk_count: 3,
        permissions: 0o644,
        mtime: 1700000000,
    };

    let mut buf = Vec::new();
    entry.write_to(&mut buf).unwrap();

    let mut cursor = ByteReader::new(&buf);
    let decoded = FileEntry::read_from(&mut cursor).unwrap();
    assert_eq!(entry, decoded);
}

#[test]
fn file_entry_prefix_roundtrip() {
    let entry = FileEntry {
        path: "src/components/renderer.rs".into(),
        original_size: 42,
        blake3_hash: [7; 32],
        solid_group_id: 2,
        chunk_start_idx: 3,
        chunk_count: 1,
        permissions: 0o644,
        mtime: 1_700_000_000,
    };
    let previous = "src/components/parser.rs";
    let mut buffer = Vec::new();
    entry.write_prefixed(&mut buffer, previous).unwrap();
    let decoded = FileEntry::read_prefixed(&mut ByteReader::new(&buffer), previous).unwrap();
    assert_eq!(entry, decoded);
}

#[test]
fn solid_group_entry_roundtrip() {
    let entry = SolidGroupEntry {
        group_id: 7,
        content_type: ContentType::Text,
        compression_method: CompressionMethod::PredictorRans,
        first_block_idx: 10,
        block_count: 5,
        file_count: 3,
    };

    let mut buf = Vec::new();
    entry.write_to(&mut buf).unwrap();
    assert_eq!(buf.len(), SOLID_GROUP_ENTRY_SIZE);

    let mut cursor = ByteReader::new(&buf);
    let decoded = SolidGroupEntry::read_from(&mut cursor).unwrap();
    assert_eq!(entry, decoded);
}

#[test]
fn archive_footer_roundtrip() {
    let footer = ArchiveFooter {
        block_index_offset: 123456,
        file_table_offset: 48,
        block_count: 50,
        file_count: 10,
    };

    let mut buf = Vec::new();
    footer.write_to(&mut buf).unwrap();
    assert_eq!(buf.len(), ARCHIVE_FOOTER_SIZE);

    let mut cursor = ByteReader::new(&buf);
    let decoded = ArchiveFooter::read_from(&mut cursor).unwrap();
    assert_eq!(footer, decoded);
}

#[test]
fn footer_bad_magic() {
    let footer = ArchiveFooter {
        block_index_offset: 100,
        file_table_offset: 48,
        block_count: 1,
        file_count: 1,
    };

    let mut buf = Vec::new();
    footer.write_to(&mut buf).unwrap();

    // Corrupt footer magic (last 4 bytes)
    let len = buf.len();
    buf[len - 1] ^= 0xFF;

    let mut cursor = ByteReader::new(&buf);
    assert!(matches!(
        ArchiveFooter::read_from(&mut cursor),
        Err(AetherError::InvalidFooterMagic)
    ));
}

fn entry(path: &str) -> FileEntry {
    FileEntry {
        path: path.to_string(),
        original_size: 1,
        blake3_hash: [3; 32],
        solid_group_id: 0,
        chunk_start_idx: 0,
        chunk_count: 1,
        permissions: 0o755,
        mtime: -5,
    }
}

fn reread(path: &str) -> Result<FileEntry, AetherError> {
    let mut buf = Vec::new();
    entry(path).write_to(&mut buf).unwrap();
    FileEntry::read_from(&mut ByteReader::new(&buf))
}

#[test]
fn unsafe_paths_are_refused() {
    for path in [
        "/etc/passwd",
        "\\windows",
        "c:file",
        "..",
        "a/../b",
        "a\\..",
        "a/..",
        "nul\0",
    ] {
        assert!(
            matches!(reread(path), Err(AetherError::PathTraversal(p)) if p == path),
            "{path}"
        );
    }
    for path in ["", "a", "a..b", "..a/b", "a/...", "ab:c", "dir/sub/file.txt"] {
        assert_eq!(reread(path).unwrap().path, path);
    }
}

#[test]
fn bad_paths_are_refused() {
    assert!(matches!(
        reread(&"a".repeat(4097)),
        Err(AetherError::ResourceLimitExceeded(_))
    ));
    assert!(reread(&"a".repeat(4096)).is_ok());
    let mut buf = Vec::new();
    entry("abc").write_to(&mut buf).unwrap();
    buf[2] = 0xFF;
    let error = FileEntry::read_from(&mut ByteReader::new(&buf)).unwrap_err();
    assert!(error.message().contains("Invalid UTF-8 path: invalid utf-8"));
    assert!(matches!(
        FileEntry::read_from(&mut ByteReader::new(&buf[..1])),
        Err(AetherError::Io { .. })
    ));
}

#[test]
fn permissions_are_masked() {
    let mut e = entry("a");
    e.permissions = 0o4755;
    let mut buf = Vec::new();
    e.write_to(&mut buf).unwrap();
    let decoded = FileEntry::read_from(&mut ByteReader::new(&buf)).unwrap();
    assert_eq!(decoded.permissions, 0o755);
    assert_eq!(decoded.mtime, -5);
}

#[test]
fn prefixes_end_at_characters() {
    // The two letters share their first byte.
    let e = entry("na\u{ef}ve");
    let previous = "na\u{e9}";
    assert_eq!(e.prefixed_path_size(previous), 4 + 4);
    let mut buf = Vec::new();
    e.write_prefixed(&mut buf, previous).unwrap();
    let mut reader = ByteReader::new(&buf);
    assert_eq!(FileEntry::read_prefixed(&mut reader, previous).unwrap(), e);
    assert_eq!(reader.remaining(), 0);
    // Behind another path the prefix is too long.
    assert!(matches!(
        FileEntry::read_prefixed(&mut ByteReader::new(&buf), "n"),
        Err(AetherError::ResourceLimitExceeded(_))
    ));
    let long = entry(&"x".repeat(70_000));
    assert!(long.write_prefixed(&mut Vec::new(), "").is_err());
    assert!(long.write_prefixed(&mut Vec::new(), &"x".repeat(69_999)).is_err());
}

#[test]
fn limits_and_numbers_of_headers() {
    let header = ArchiveHeader {
        flags: 0,
        predictor_id: PredictorId::Order0,
        file_count: 1_000_001,
        solid_group_count: 0,
        block_count: 0,
        file_table_offset: 48,
        block_index_offset: 48,
    };
    let mut buf = Vec::new();
    header.write_to(&mut buf).unwrap();
    assert_eq!(
        ArchiveHeader::read_from(&mut ByteReader::new(&buf))
            .unwrap_err()
            .message(),
        "Resource limit exceeded: Archive claims 1000001 files, exceeding limit of 1000000"
    );
    buf[10] = 77;
    assert!(matches!(
        ArchiveHeader::read_from(&mut ByteReader::new(&buf)),
        Err(AetherError::UnknownPredictorId(77))
    ));
    assert!(matches!(
        ArchiveHeader::read_from(&mut ByteReader::new(&buf[..20])),
        Err(AetherError::UnknownPredictorId(77))
    ));
    assert!(matches!(
        ArchiveHeader::read_from(&mut ByteReader::new(&buf[..7])),
        Err(AetherError::Io { .. })
    ));
}

#[test]
fn groups_and_footers_are_checked() {
    let group = SolidGroupEntry {
        group_id: 1,
        content_type: ContentType::Image,
        compression_method: CompressionMethod::Store,
        first_block_idx: 2,
        block_count: 3,
        file_count: 4,
    };
    let mut buf = Vec::new();
    group.write_to(&mut buf).unwrap();
    let mut bad = buf.clone();
    bad[4] = 50;
    assert!(matches!(
        SolidGroupEntry::read_from(&mut ByteReader::new(&bad)),
        Err(AetherError::UnknownContentType(50))
    ));
    let mut bad = buf.clone();
    bad[6] = 60;
    assert!(matches!(
        SolidGroupEntry::read_from(&mut ByteReader::new(&bad)),
        Err(AetherError::UnknownCompressionMethod(60))
    ));
    let footer = ArchiveFooter {
        block_index_offset: 1,
        file_table_offset: 2,
        block_count: 3,
        file_count: 4,
    };
    let mut buf = Vec::new();
    footer.write_to(&mut buf).unwrap();
    buf[0] ^= 1;
    assert!(matches!(
        ArchiveFooter::read_from(&mut ByteReader::new(&buf)),
        Err(AetherError::HeaderCrcMismatch { .. })
    ));
}

#[test]
fn every_damaged_byte_of_a_footer_is_noticed() {
    let footer = ArchiveFooter {
        block_index_offset: 1000,
        file_table_offset: 2000,
        block_count: 3,
        file_count: 4,
    };
    let mut buf = Vec::new();
    footer.write_to(&mut buf).unwrap();
    for i in 0..ARCHIVE_FOOTER_SIZE {
        let mut bad = buf.clone();
        bad[i] = bad[i].wrapping_add(1);
        let read = ArchiveFooter::read_from(&mut ByteReader::new(&bad));
        if i < 28 {
            assert!(matches!(read, Err(AetherError::HeaderCrcMismatch { .. })));
        } else {
            assert!(matches!(read, Err(AetherError::InvalidFooterMagic)));
        }
    }
}
