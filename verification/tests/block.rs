use aether_core::block::{BlockHeader, BlockIndexEntry, BlockTrailer};
use aether_core::bytes::ByteReader;
use aether_core::format::{BLOCK_HEADER_SIZE, BLOCK_INDEX_ENTRY_SIZE, BLOCK_TRAILER_SIZE};
use aether_core::{AetherError, CompressionMethod};

#[test]
fn block_header_roundtrip() {
    let header = BlockHeader {
        block_id: 42,
        solid_group_id: 3,
        compression_method: CompressionMethod::PredictorRans,
        predictor_state_flag: false,
        compressed_size: 1024,
        uncompressed_size: 4096,
    };

    let mut buf = Vec::new();
    header.write_to(&mut buf).unwrap();
    assert_eq!(buf.len(), BLOCK_HEADER_SIZE);

    let mut cursor = ByteReader::new(&buf);
    let decoded = BlockHeader::read_from(&mut cursor).unwrap();
    assert_eq!(header, decoded);
}

#[test]
fn block_header_bad_magic() {
    let mut buf = vec![0u8; BLOCK_HEADER_SIZE];
    // Write wrong magic
    buf[0..4].copy_from_slice(&0xDEADBEEFu32.to_le_bytes());
    let mut cursor = ByteReader::new(&buf);
    assert!(matches!(
        BlockHeader::read_from(&mut cursor),
        Err(AetherError::InvalidBlockMagic { .. })
    ));
}

#[test]
fn block_trailer_roundtrip() {
    let trailer = BlockTrailer {
        content_blake3: [0xCD; 32],
    };

    let mut buf = Vec::new();
    trailer.write_to(&mut buf).unwrap();
    assert_eq!(buf.len(), BLOCK_TRAILER_SIZE);

    let mut cursor = ByteReader::new(&buf);
    let decoded = BlockTrailer::read_from(&mut cursor).unwrap();
    assert_eq!(trailer, decoded);
}

#[test]
fn block_index_entry_roundtrip() {
    let entry = BlockIndexEntry {
        block_id: 0,
        archive_offset: 48 + 256,
        compressed_size: 512,
        uncompressed_size: 2048,
        solid_group_id: 1,
    };

    let mut buf = Vec::new();
    entry.write_to(&mut buf).unwrap();
    assert_eq!(buf.len(), BLOCK_INDEX_ENTRY_SIZE);

    let mut cursor = ByteReader::new(&buf);
    let decoded = BlockIndexEntry::read_from(&mut cursor).unwrap();
    assert_eq!(entry, decoded);
}

#[test]
fn block_header_all_methods() {
    for method in [
        CompressionMethod::PredictorRans,
        CompressionMethod::Zstd,
        CompressionMethod::Store,
        CompressionMethod::LzPredictorRans,
        CompressionMethod::Lz77PredictorRans,
        CompressionMethod::BwtPredictorRans,
    ] {
        let header = BlockHeader {
            block_id: 0,
            solid_group_id: 0,
            compression_method: method,
            predictor_state_flag: true,
            compressed_size: 100,
            uncompressed_size: 200,
        };

        let mut buf = Vec::new();
        header.write_to(&mut buf).unwrap();
        let mut cursor = ByteReader::new(&buf);
        let decoded = BlockHeader::read_from(&mut cursor).unwrap();
        assert_eq!(header, decoded);
    }
}

#[test]
fn damaged_blocks_are_named() {
    let header = BlockHeader {
        block_id: 9,
        solid_group_id: 0,
        compression_method: CompressionMethod::Zstd,
        predictor_state_flag: true,
        compressed_size: 1,
        uncompressed_size: 2,
    };
    let mut buf = Vec::new();
    header.write_to(&mut buf).unwrap();
    let mut bad = buf.clone();
    bad[16] ^= 1;
    assert!(matches!(
        BlockHeader::read_from(&mut ByteReader::new(&bad)),
        Err(AetherError::BlockCrcMismatch { block_id: 9 })
    ));
    let mut bad = buf.clone();
    bad[12] = 99;
    assert!(matches!(
        BlockHeader::read_from(&mut ByteReader::new(&bad)),
        Err(AetherError::UnknownCompressionMethod(99))
    ));
    // A flag other than 0 counts as 1, and the reserved bytes do not matter.
    let mut odd = buf.clone();
    odd[13] = 7;
    odd[14] = 1;
    assert_eq!(
        BlockHeader::read_from(&mut ByteReader::new(&odd)).unwrap(),
        header
    );
    let mut bad = buf.clone();
    bad[0] ^= 1;
    assert!(matches!(
        BlockHeader::read_from_at(&mut ByteReader::new(&bad), 1234),
        Err(AetherError::InvalidBlockMagic { offset: 1234 })
    ));
    let trailer = BlockTrailer {
        content_blake3: [1; 32],
    };
    let mut buf = Vec::new();
    trailer.write_to(&mut buf).unwrap();
    buf[0] ^= 1;
    assert!(matches!(
        BlockTrailer::read_from_with_id(&mut ByteReader::new(&buf), 5),
        Err(AetherError::BlockCrcMismatch { block_id: 5 })
    ));
    assert!(matches!(
        BlockIndexEntry::read_from(&mut ByteReader::new(&buf[..23])),
        Err(AetherError::Io { .. })
    ));
}

#[test]
fn every_damaged_byte_of_a_header_is_named() {
    let header = BlockHeader {
        block_id: 0x0403_0201,
        solid_group_id: 77,
        compression_method: CompressionMethod::Store,
        predictor_state_flag: false,
        compressed_size: 123_456,
        uncompressed_size: 654_321,
    };
    let mut buf = Vec::new();
    header.write_to(&mut buf).unwrap();
    for i in 0..BLOCK_HEADER_SIZE {
        for change in 1..=255u8 {
            let mut bad = buf.clone();
            bad[i] ^= change;
            let read = BlockHeader::read_from(&mut ByteReader::new(&bad));
            match i {
                0..=3 => assert!(matches!(
                    read,
                    Err(AetherError::InvalidBlockMagic { offset: 0 })
                )),
                12 => assert!(matches!(
                    read,
                    Err(AetherError::UnknownCompressionMethod(_)
                        | AetherError::BlockCrcMismatch { .. })
                )),
                14 | 15 => assert_eq!(read.unwrap(), header),
                _ => assert!(matches!(read, Err(AetherError::BlockCrcMismatch { .. }))),
            }
        }
    }
}

#[test]
fn trailers_hold_a_crc32() {
    let mut content_blake3 = [0u8; 32];
    for (i, b) in content_blake3.iter_mut().enumerate() {
        *b = i as u8;
    }
    let mut buf = Vec::new();
    BlockTrailer { content_blake3 }.write_to(&mut buf).unwrap();
    assert_eq!(buf[32..], 0x9126_7E8Au32.to_le_bytes());
    for i in 0..BLOCK_TRAILER_SIZE {
        let mut bad = buf.clone();
        bad[i] ^= 0x10;
        assert!(matches!(
            BlockTrailer::read_from_with_id(&mut ByteReader::new(&bad), 5),
            Err(AetherError::BlockCrcMismatch { block_id: 5 })
        ));
    }
}
