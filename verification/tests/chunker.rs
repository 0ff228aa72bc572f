use aether_core::chunker::{chunk_data, chunk_fixed};

#[test]
fn chunk_empty() {
    let chunks = chunk_data(&[]);
    assert!(chunks.is_empty());
}

#[test]
fn chunk_small_data() {
    // Data smaller than MIN_CHUNK_SIZE -> single chunk
    let data = vec![0x42u8; 1000];
    let chunks = chunk_data(&data);
    assert_eq!(chunks.len(), 1);
    assert_eq!(chunks[0].length, 1000);
    assert_eq!(chunks[0].data, data);
}

#[test]
fn chunk_deterministic() {
    let data: Vec<u8> = (0..200_000).map(|i| (i % 256) as u8).collect();
    let chunks1 = chunk_data(&data);
    let chunks2 = chunk_data(&data);

    assert_eq!(chunks1.len(), chunks2.len());
    for (a, b) in chunks1.iter().zip(chunks2.iter()) {
        assert_eq!(a.offset, b.offset);
        assert_eq!(a.length, b.length);
        assert_eq!(a.blake3_hash, b.blake3_hash);
    }
}

#[test]
fn chunk_covers_all_data() {
    let data: Vec<u8> = (0..500_000).map(|i| (i * 7 % 256) as u8).collect();
    let chunks = chunk_data(&data);

    let total_len: usize = chunks.iter().map(|c| c.length).sum();
    assert_eq!(total_len, data.len());

    // Chunks are contiguous
    let mut expected_offset = 0u64;
    for chunk in &chunks {
        assert_eq!(chunk.offset, expected_offset);
        expected_offset += chunk.length as u64;
    }
}


#[test]
fn fixed_chunking() {
    let data = vec![0xABu8; 10_000];
    let chunks = chunk_fixed(&data, 4096);
    assert_eq!(chunks.len(), 3); // 4096 + 4096 + 1808
    assert_eq!(chunks[0].length, 4096);
    assert_eq!(chunks[1].length, 4096);
    assert_eq!(chunks[2].length, 1808);
}

#[test]
fn content_chunks_rejoin_and_are_bounded() {
    let mut state = 1u64;
    let data: Vec<u8> = (0..6_000_000)
        .map(|_| {
            state = state
                .wrapping_mul(6364136223846793005)
                .wrapping_add(1442695040888963407);
            (state >> 56) as u8
        })
        .collect();
    let chunks = chunk_data(&data);
    assert!(chunks.len() > 1);
    let mut joined = Vec::new();
    for (i, chunk) in chunks.iter().enumerate() {
        assert_eq!(chunk.offset as usize, joined.len());
        assert_eq!(chunk.length, chunk.data.len());
        assert!(chunk.length <= 4 * 1024 * 1024);
        assert!(chunk.length >= 16 * 1024 || i + 1 == chunks.len());
        assert_eq!(&chunk.blake3_hash, blake3::hash(&chunk.data).as_bytes());
        joined.extend_from_slice(&chunk.data);
    }
    assert_eq!(joined, data);
}

#[test]
fn fixed_chunks_of_nothing() {
    assert!(chunk_fixed(&[], 0).is_empty());
    assert_eq!(chunk_fixed(&[1, 2], usize::MAX).len(), 1);
}
