use aether_core::coding::bcj::{decode_x86, encode_x86, is_x86_executable};
use aether_core::coding::bwt_preprocess::{
    bwt_decode, bwt_encode, bwt_mtf_decode, bwt_mtf_decode_parts, bwt_mtf_encode,
    bwt_mtf_encode_parts, mtf_decode, mtf_encode, rle_decode, rle_encode,
};
use aether_core::coding::lz77_preprocess::{lz77_decode, lz77_encode};
use aether_core::coding::lz_preprocess::{lz_decode, lz_encode};
use aether_core::coding::rans::{RangeDecoder, RangeEncoder};
use aether_core::coding::zstd_fallback::{compress, decompress, ZSTD_COMPRESSION_LEVEL};
use aether_core::format::MAX_DECOMPRESSED_BLOCK_SIZE;

fn synthetic_pe() -> Vec<u8> {
    let mut data = vec![0u8; 256];
    data[..2].copy_from_slice(b"MZ");
    data[0x3C..0x40].copy_from_slice(&(0x80u32).to_le_bytes());
    data[0x80..0x84].copy_from_slice(b"PE\0\0");
    data[0x84..0x86].copy_from_slice(&0x8664u16.to_le_bytes());
    for position in (0x90..220).step_by(10) {
        data[position] = 0xE8;
        data[position + 1..position + 5]
            .copy_from_slice(&(0x1234i32 - position as i32).to_le_bytes());
    }
    data
}

#[test]
fn detects_x86_pe_and_rejects_arbitrary_data() {
    assert!(is_x86_executable(&synthetic_pe()));
    assert!(!is_x86_executable(b"not an executable"));
}

#[test]
fn x86_bcj_roundtrip() {
    let original = synthetic_pe();
    let mut transformed = encode_x86(&original).unwrap();
    assert_ne!(transformed, original);
    decode_x86(&mut transformed);
    assert_eq!(transformed, original);
}

#[test]
fn bwt_roundtrip_simple() {
    let data = b"banana";
    let (bwt, idx) = bwt_encode(data).unwrap();
    let decoded = bwt_decode(&bwt, idx).unwrap();
    assert_eq!(&decoded, data);
}

#[test]
fn bwt_roundtrip_text() {
    let data = b"the quick brown fox jumps over the lazy dog";
    let (bwt, idx) = bwt_encode(data).unwrap();
    let decoded = bwt_decode(&bwt, idx).unwrap();
    assert_eq!(&decoded, data);
}

#[test]
fn mtf_roundtrip() {
    let data = b"abracadabra";
    let encoded = mtf_encode(data);
    let decoded = mtf_decode(&encoded);
    assert_eq!(&decoded, data);
}

#[test]
fn mtf_clusters_repeated_bytes() {
    // BWT output typically has runs of same byte -> MTF gives lots of 0s
    let data = vec![b'a'; 100];
    let encoded = mtf_encode(&data);
    // First byte gets some index, all subsequent should be 0
    assert!(encoded[1..].iter().all(|&b| b == 0));
}

#[test]
fn combined_roundtrip_text() {
    let text = b"Hello, world! Hello, world! This is a BWT test. \
                 The quick brown fox jumps over the lazy dog. \
                 The quick brown fox jumps over the lazy dog.";
    let encoded = bwt_mtf_encode(text).unwrap();
    let decoded = bwt_mtf_decode(&encoded, text.len()).unwrap();
    assert_eq!(&decoded[..], &text[..]);
}

#[test]
fn combined_roundtrip_repetitive() {
    let text: Vec<u8> = b"ABCABCABCABCABC".repeat(100);
    let encoded = bwt_mtf_encode(&text).unwrap();
    let decoded = bwt_mtf_decode(&encoded, text.len()).unwrap();
    assert_eq!(decoded, text);
}

#[test]
fn mtf_output_mostly_small() {
    // Longer text after BWT should produce mostly small MTF values
    let line = b"the quick brown fox jumps over the lazy dog again and again. ";
    let text: Vec<u8> = line.repeat(20);
    let (bwt, _) = bwt_encode(&text).unwrap();
    let mtf = mtf_encode(&bwt);

    let small_count = mtf.iter().filter(|&&b| b < 10).count();
    let ratio = small_count as f64 / mtf.len() as f64;
    assert!(
        ratio > 0.5,
        "Expected >50% small MTF values, got {:.1}%",
        ratio * 100.0
    );
}

#[test]
fn bwt_preprocess_decode_validates_size() {
    let text = b"test data for size validation";
    let encoded = bwt_mtf_encode(text).unwrap();
    let err = bwt_mtf_decode(&encoded, text.len() + 10);
    assert!(err.is_err());
}

#[test]
fn single_byte_roundtrip() {
    let data = b"X";
    let encoded = bwt_mtf_encode(data).unwrap();
    let decoded = bwt_mtf_decode(&encoded, data.len()).unwrap();
    assert_eq!(&decoded[..], &data[..]);
}

#[test]
fn uniform_data_roundtrip() {
    let data = vec![0x42u8; 10_000];
    let encoded = bwt_mtf_encode(&data).unwrap();
    let decoded = bwt_mtf_decode(&encoded, data.len()).unwrap();
    assert_eq!(decoded, data);
}

#[test]
fn rle_roundtrip_basic() {
    // Simple MTF-like data: runs of zeros interspersed with small values
    let mtf = vec![0, 0, 0, 0, 0, 3, 0, 0, 2, 1, 0, 0, 0, 0, 0, 0, 0, 1];
    let rle = rle_encode(&mtf).unwrap();
    let decoded = rle_decode(&rle, mtf.len()).unwrap();
    assert_eq!(decoded, mtf);
}

#[test]
fn rle_roundtrip_single_zeros() {
    let mtf = vec![0, 5, 0, 3, 0];
    let rle = rle_encode(&mtf).unwrap();
    let decoded = rle_decode(&rle, mtf.len()).unwrap();
    assert_eq!(decoded, mtf);
}

#[test]
fn rle_roundtrip_no_zeros() {
    let mtf = vec![1, 2, 3, 4, 5];
    let rle = rle_encode(&mtf).unwrap();
    // No zeros -> all values shifted by 1
    assert_eq!(rle, vec![2, 3, 4, 5, 6]);
    let decoded = rle_decode(&rle, mtf.len()).unwrap();
    assert_eq!(decoded, mtf);
}

#[test]
fn rle_roundtrip_all_zeros() {
    let mtf = vec![0; 1000];
    let rle = rle_encode(&mtf).unwrap();
    // Run of 1000 zeros -> bijective base-2 of 1000 -> ~10 symbols
    assert!(
        rle.len() < 15,
        "RLE of 1000 zeros should be < 15 symbols, got {}",
        rle.len()
    );
    let decoded = rle_decode(&rle, mtf.len()).unwrap();
    assert_eq!(decoded, mtf);
}

#[test]
fn rle_rejects_value_255() {
    let mtf = vec![0, 1, 255, 3];
    assert!(rle_encode(&mtf).is_none());
}

#[test]
fn rle_run_lengths() {
    // Verify specific run length encodings
    for n in 1..=100u32 {
        let mtf = vec![0u8; n as usize];
        let rle = rle_encode(&mtf).unwrap();
        let decoded = rle_decode(&rle, mtf.len()).unwrap();
        assert_eq!(decoded, mtf, "Failed roundtrip for run length {n}");
    }
}

#[test]
fn rle_compresses_real_bwt_output() {
    // BWT+MTF of repetitive text -> lots of zero runs
    let line = b"the quick brown fox jumps over the lazy dog again and again. ";
    let text: Vec<u8> = line.repeat(20);
    let (_, mtf_data) = bwt_mtf_encode_parts(&text).unwrap();
    let rle = rle_encode(&mtf_data).unwrap();
    // RLE should significantly reduce the data size
    let ratio = rle.len() as f64 / mtf_data.len() as f64;
    assert!(
        ratio < 0.8,
        "RLE should reduce MTF data by >20%, got ratio {:.2}",
        ratio
    );
}

#[test]
fn rle_full_pipeline_roundtrip() {
    // Full BWT+MTF+RLE roundtrip
    let text = b"Hello, world! Hello, world! This is a BWT+RLE test. \
                 The quick brown fox jumps over the lazy dog.";
    let (primary_index, mtf_data) = bwt_mtf_encode_parts(text).unwrap();
    let rle = rle_encode(&mtf_data).unwrap();
    let mtf_decoded = rle_decode(&rle, mtf_data.len()).unwrap();
    let original = bwt_mtf_decode_parts(primary_index, &mtf_decoded, text.len()).unwrap();
    assert_eq!(&original[..], &text[..]);
}

#[test]
fn lz77_preprocess_roundtrip_text() {
    let text = b"Hello, world! Hello, world! Hello, world! Hello, world! \
                 The quick brown fox jumps over the lazy dog. \
                 The quick brown fox jumps over the lazy dog.";
    let enc = lz77_encode(text).expect("text should compress");
    assert!(enc.len() < text.len());
    let dec = lz77_decode(&enc, text.len()).unwrap();
    assert_eq!(&dec[..], &text[..]);
}

#[test]
fn roundtrip_large_repetitive() {
    let line = "The AetherArch compression pipeline uses LZ77 preprocessing.\n";
    let text: Vec<u8> = line.as_bytes().repeat(500);
    let enc = lz77_encode(&text).expect("should compress");
    assert!(enc.len() < text.len() / 2);
    let dec = lz77_decode(&enc, text.len()).unwrap();
    assert_eq!(dec, text);
}

#[test]
fn roundtrip_rust_source() {
    let src = br#"
fn main() {
    let x = 42;
    println!("Hello, world! The answer is {}", x);
    for i in 0..10 {
        println!("  iteration {}", i);
    }
    println!("Done.");
    let x = 42;
    println!("Hello, world! The answer is {}", x);
    for i in 0..10 {
        println!("  iteration {}", i);
    }
    println!("Done.");
}
"#;
    let enc = lz77_encode(src).expect("should compress");
    assert!(enc.len() < src.len());
    let dec = lz77_decode(&enc, src.len()).unwrap();
    assert_eq!(&dec[..], &src[..]);
}

#[test]
fn catches_3byte_matches() {
    // "the" repeated many times with different suffixes.
    // LZ4 (min-match-4) would miss these, LZ77 (min-match-3) catches them.
    let text = b"the cat and the dog and the fox and the owl and the bat";
    let enc = lz77_encode(text).expect("should compress");
    let dec = lz77_decode(&enc, text.len()).unwrap();
    assert_eq!(&dec[..], &text[..]);
}

#[test]
fn lz77_preprocess_incompressible_returns_none() {
    let random: Vec<u8> = (0..4096u64)
        .map(|i| {
            (i.wrapping_mul(6364136223846793005)
                .wrapping_add(1442695040888963407)
                >> 33) as u8
        })
        .collect();
    let result = lz77_encode(&random);
    if let Some(ref enc) = result {
        let dec = lz77_decode(enc, random.len()).unwrap();
        assert_eq!(dec, random);
    }
}

#[test]
fn short_input_returns_none() {
    assert!(lz77_encode(b"AB").is_none());
    assert!(lz77_encode(b"").is_none());
}

#[test]
fn lz77_preprocess_decode_validates_size() {
    let text: Vec<u8> = b"abcdef1234567890 ".repeat(100);
    let enc = lz77_encode(&text).expect("should compress");
    let err = lz77_decode(&enc, text.len() + 100);
    assert!(err.is_err());
}

#[test]
fn matches_overlap_correctly() {
    // "AAAA..." should compress to a single match with self-referencing copy
    let data = vec![0x41u8; 10_000];
    let enc = lz77_encode(&data).expect("should compress");
    assert!(enc.len() < data.len() / 10);
    let dec = lz77_decode(&enc, data.len()).unwrap();
    assert_eq!(dec, data);
}

#[test]
fn better_than_lz4_on_3byte_patterns() {
    // Text with lots of short repeated patterns
    let text = "fn f() { } fn g() { } fn h() { } fn i() { } fn j() { } \
                fn k() { } fn l() { } fn m() { } fn n() { } fn o() { } "
        .as_bytes()
        .repeat(20);
    let lz77 = lz77_encode(&text).expect("lz77 should compress");
    let lz4 = lz_encode(&text);
    // LZ77 should be at least as good as LZ4 (usually better)
    if let Some(lz4) = lz4 {
        assert!(
            lz77.len() <= lz4.len(),
            "LZ77 ({}) should be <= LZ4 ({})",
            lz77.len(),
            lz4.len()
        );
    }
}

#[test]
fn lz_preprocess_roundtrip_text() {
    let text = b"Hello, world! Hello, world! Hello, world! Hello, world! \
                 The quick brown fox jumps over the lazy dog. \
                 The quick brown fox jumps over the lazy dog. \
                 The quick brown fox jumps over the lazy dog.";
    let lz = lz_encode(text).expect("text should compress with LZ4");
    assert!(
        lz.len() < text.len(),
        "LZ4 output ({}) should be smaller than input ({})",
        lz.len(),
        text.len()
    );
    let decoded = lz_decode(&lz, text.len()).expect("decode should succeed");
    assert_eq!(&decoded[..], &text[..]);
}

#[test]
fn roundtrip_large_text() {
    // Highly repetitive text - LZ4 should compress well
    let line = "The AetherArch compression pipeline uses LZ4 preprocessing.\n";
    let text: Vec<u8> = line.as_bytes().repeat(500);
    let lz = lz_encode(&text).expect("large text should compress");
    assert!(
        lz.len() < text.len() / 2,
        "LZ4 should achieve at least 2:1 on repetitive text, got {}/{}",
        lz.len(),
        text.len()
    );
    let decoded = lz_decode(&lz, text.len()).unwrap();
    assert_eq!(decoded, text);
}

#[test]
fn lz_preprocess_incompressible_returns_none() {
    // Already-compressed / random data shouldn't benefit from LZ4
    let mut random_data = vec![0u8; 256];
    for (i, b) in random_data.iter_mut().enumerate() {
        // Pseudo-random using a simple LCG
        *b = ((i as u64)
            .wrapping_mul(6364136223846793005)
            .wrapping_add(1442695040888963407)
            >> 33) as u8;
    }
    // Very short random data may or may not compress, so use larger block
    let big_random: Vec<u8> = (0..4096)
        .map(|i: i32| {
            ((i as u64)
                .wrapping_mul(6364136223846793005)
                .wrapping_add(1442695040888963407)
                >> 33) as u8
        })
        .collect();
    // LZ4 on high-entropy data typically expands or barely compresses
    let result = lz_encode(&big_random);
    // Either None or Some - but if Some, verify roundtrip still works
    if let Some(ref lz) = result {
        let decoded = lz_decode(lz, big_random.len()).unwrap();
        assert_eq!(decoded, big_random);
    }
}

#[test]
fn empty_returns_none() {
    assert!(lz_encode(&[]).is_none());
}

#[test]
fn decode_empty_fails() {
    let err = lz_decode(&[], 0);
    assert!(err.is_err());
}

#[test]
fn decode_size_mismatch() {
    // Use repetitive data that LZ4 will definitely compress
    let text: Vec<u8> = b"abcdef1234567890 ".repeat(100);
    let lz = lz_encode(&text).expect("should compress");
    // Request wrong size
    let err = lz_decode(&lz, text.len() + 100);
    assert!(err.is_err(), "should fail on size mismatch");
}

#[test]
fn roundtrip_single_byte_repeated() {
    let data = vec![0x42u8; 10_000];
    let lz = lz_encode(&data).expect("uniform data should compress with LZ4");
    assert!(
        lz.len() < data.len() / 10,
        "uniform data should compress extremely well"
    );
    let decoded = lz_decode(&lz, data.len()).unwrap();
    assert_eq!(decoded, data);
}

#[test]
fn zstd_fallback_roundtrip_empty() {
    let data: &[u8] = &[];
    let compressed = compress(data).unwrap();
    let decompressed = decompress(&compressed, data.len()).unwrap();
    assert_eq!(data.to_vec(), decompressed);
}

#[test]
fn zstd_fallback_roundtrip_text() {
    let data = b"Hello, World! This is a test of zstd compression. Repeated text helps. Repeated text helps.";
    let compressed = compress(data).unwrap();
    let decompressed = decompress(&compressed, data.len()).unwrap();
    assert_eq!(data.to_vec(), decompressed);
}

#[test]
fn roundtrip_binary() {
    let data: Vec<u8> = (0..10_000).map(|i| (i * 7 % 256) as u8).collect();
    let compressed = compress(&data).unwrap();
    let decompressed = decompress(&compressed, data.len()).unwrap();
    assert_eq!(data, decompressed);
}

#[test]
fn zstd_fallback_compresses_repetitive_data() {
    let data = vec![0x42u8; 100_000];
    let compressed = compress(&data).unwrap();
    assert!(
        compressed.len() < data.len() / 10,
        "zstd should compress 100K identical bytes well: {} -> {}",
        data.len(),
        compressed.len()
    );
}

#[test]
fn decode_rejects_oversized() {
    let data = b"small";
    let compressed = compress(data).unwrap();
    let err = decompress(&compressed, MAX_DECOMPRESSED_BLOCK_SIZE + 1);
    assert!(
        err.is_err(),
        "should reject expected_size beyond safety limit"
    );
}

#[test]
fn decode_rejects_size_mismatch() {
    let data = b"test data for mismatch";
    let compressed = compress(data).unwrap();
    let err = decompress(&compressed, data.len() + 10);
    assert!(err.is_err(), "should reject mismatched expected_size");
}

#[test]
fn known_transforms() {
    let (bwt, row) = bwt_encode(b"banana").unwrap();
    assert_eq!(bwt, b"nnbaaa");
    assert_eq!(row, 3);
    assert_eq!(mtf_encode(b"\x01\x01\x00"), vec![1, 0, 1]);
    assert_eq!(rle_encode(&[0, 0, 0, 4]).unwrap(), vec![0, 0, 5]);
    assert!(bwt_decode(b"abc", 3).is_err());
}

#[test]
fn lz4_blocks_carry_their_size() {
    let data = vec![9u8; 1000];
    let block = lz_encode(&data).unwrap();
    assert_eq!(&block[..4], &1000u32.to_le_bytes());
    assert_eq!(
        lz_decode(&block, 999).unwrap_err().message(),
        "Decompression error: LZ4 embedded size 1000 does not match expected 999"
    );
    let mut cut = block.clone();
    cut.truncate(5);
    assert!(lz_decode(&cut, 1000)
        .unwrap_err()
        .message()
        .starts_with("Decompression error: LZ4 decompress failed: "));
    assert!(lz_decode(&[1, 2], 0).is_err());
}

#[test]
fn zstd_streams_are_checked() {
    let stream = compress(b"some data").unwrap();
    assert_ne!(stream, b"some data");
    assert_eq!(
        decompress(&stream, 4).unwrap_err().message(),
        "Decompression error: zstd decode size mismatch: expected 4, got 5"
    );
    assert!(decompress(b"no stream", 9)
        .unwrap_err()
        .message()
        .starts_with("Decompression error: zstd decompress: "));
    assert_eq!(
        decompress(&stream, 67_108_865).unwrap_err().message(),
        "Decompression error: zstd decode size 67108865 exceeds safety limit 67108864"
    );
}

/// An LZ4 block of literals alone.
fn literal_block(data: &[u8]) -> Vec<u8> {
    let mut block = (data.len() as u32).to_le_bytes().to_vec();
    block.push(0xF0);
    let rest = data.len() - 15;
    block.resize(block.len() + rest / 255, 0xFF);
    block.push((rest % 255) as u8);
    block.extend_from_slice(data);
    block
}

#[test]
fn lz4_lengths_too_large_to_sum_are_refused() {
    let refused = "Decompression error: LZ4 decode: a length is too large";
    let failed = "Decompression error: LZ4 decompress failed: ";
    let mut block = 100u32.to_le_bytes().to_vec();
    block.push(0xF0);
    // The largest sum of 32 bits is still taken apart, and found cut off.
    block.resize(5 + 16_843_009, 0xFF);
    assert!(lz_decode(&block, 100)
        .unwrap_err()
        .message()
        .starts_with(failed));
    block.push(0);
    assert!(lz_decode(&block, 100)
        .unwrap_err()
        .message()
        .starts_with(failed));
    block.pop();
    block.push(1);
    assert_eq!(lz_decode(&block, 100).unwrap_err().message(), refused);
    block.pop();
    block.push(0xFF);
    assert_eq!(lz_decode(&block, 100).unwrap_err().message(), refused);

    // The same in the length of a match.
    let mut block = 100u32.to_le_bytes().to_vec();
    block.extend_from_slice(&[0x1F, b'a', 1, 0]);
    block.resize(8 + 16_843_010, 0xFF);
    assert_eq!(lz_decode(&block, 100).unwrap_err().message(), refused);
    // Without an offset the decoder goes no further.
    block[6] = 0;
    assert!(lz_decode(&block, 100)
        .unwrap_err()
        .message()
        .starts_with(failed));
}

#[test]
fn lz4_literals_may_be_any_bytes() {
    // More bytes 0xFF in a row than a length may have, as literals.
    let data = vec![0xFFu8; 16_843_100];
    let block = literal_block(&data);
    assert_eq!(lz_decode(&block, data.len()).unwrap(), data);
    let packed = lz_encode(&data).unwrap();
    assert_eq!(lz_decode(&packed, data.len()).unwrap(), data);
}

#[test]
fn zstd_level_is_three() {
    let data: Vec<u8> = (0..40_000u32)
        .map(|i| (i.wrapping_mul(2_654_435_761) >> 27) as u8)
        .collect();
    assert_eq!(ZSTD_COMPRESSION_LEVEL, 3);
    assert_eq!(
        compress(&data).unwrap(),
        zstd::encode_all(&data[..], 3).unwrap()
    );
}

#[test]
fn run_code_is_bijective() {
    // Every stream of a few symbols that decodes is the code of what it decodes to.
    for a in 0..4u8 {
        for b in 0..4u8 {
            for c in 0..4u8 {
                let symbols = [a, b, c];
                let sizes: Vec<usize> = (0..20)
                    .filter(|&n| rle_decode(&symbols, n).is_ok())
                    .collect();
                assert_eq!(sizes.len(), 1);
                let data = rle_decode(&symbols, sizes[0]).unwrap();
                assert_eq!(rle_encode(&data).unwrap(), symbols);
            }
        }
    }
}

/// A table in which `likely` has half of the mass.
fn table_with(likely: u8) -> [u16; 257] {
    let mut cdf = [0u16; 257];
    for i in 0..256 {
        let width = if i == likely as usize { 16_384 + 64 } else { 64 };
        cdf[i + 1] = cdf[i] + width;
    }
    cdf
}

#[test]
fn symbols_come_back_with_their_tables() {
    // Symbols at the upper end of their tables let carries run through the output.
    let symbols: Vec<u8> = (0..5000u32)
        .map(|i| if i % 7 < 5 { 255 } else { (i * 31 % 256) as u8 })
        .collect();
    let tables: Vec<[u16; 257]> = (0..5000u32).map(|i| table_with((i % 3) as u8)).collect();
    let mut enc = RangeEncoder::new();
    for (&s, t) in symbols.iter().zip(&tables) {
        enc.encode_cdf(s, t);
    }
    let bytes = enc.finish().unwrap();
    let mut dec = RangeDecoder::new(&bytes);
    for (&s, t) in symbols.iter().zip(&tables) {
        assert_eq!(dec.decode_cdf(t), s);
    }
    assert_eq!(dec.overread(), 0);
}
