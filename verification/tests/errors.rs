use aether_core::error::IoErrorKind;
use aether_core::AetherError;

#[test]
fn messages_name_the_failure() {
    let text = || "what".to_string();
    for (error, message) in [
        (
            AetherError::InvalidMagic,
            "Invalid magic bytes: expected AetherArch header",
        ),
        (
            AetherError::UnsupportedVersion { major: 1, minor: 2 },
            "Unsupported format version 1.2",
        ),
        (
            AetherError::ChecksumMismatch {
                block_id: 7,
                expected: "aa".to_string(),
                actual: "bb".to_string(),
            },
            "Block checksum mismatch at block 7: expected aa, got bb",
        ),
        (
            AetherError::HeaderCrcMismatch {
                expected: 0xAB,
                actual: 0xFFFF_FFFF,
            },
            "Header CRC mismatch: expected 0x000000ab, got 0xffffffff",
        ),
        (
            AetherError::BlockCrcMismatch { block_id: 10 },
            "Block CRC mismatch at block 10",
        ),
        (
            AetherError::InvalidBlockMagic { offset: 0 },
            "Invalid block magic at offset 0",
        ),
        (AetherError::InvalidFooterMagic, "Footer magic mismatch"),
        (AetherError::Compression(text()), "Compression error: what"),
        (
            AetherError::Decompression(text()),
            "Decompression error: what",
        ),
        (AetherError::Encryption(text()), "Encryption error: what"),
        (AetherError::Decryption(text()), "Decryption error: what"),
        (AetherError::Predictor(text()), "Predictor error: what"),
        (
            AetherError::Io {
                kind: IoErrorKind::Other,
                message: text(),
            },
            "I/O error: what",
        ),
        (
            AetherError::BlockNotFound(3),
            "Block 3 not found in index",
        ),
        (
            AetherError::FileNotFound(text()),
            "File not found in archive: what",
        ),
        (
            AetherError::TruncatedArchive {
                expected: 100,
                actual: 9,
            },
            "Truncated archive: expected at least 100 bytes, got 9",
        ),
        (
            AetherError::UnknownCompressionMethod(200),
            "Unknown compression method: 200",
        ),
        (
            AetherError::UnknownPredictorId(99),
            "Unknown predictor ID: 99",
        ),
        (
            AetherError::UnknownContentType(65535),
            "Unknown content type: 65535",
        ),
        (
            AetherError::ResourceLimitExceeded(text()),
            "Resource limit exceeded: what",
        ),
        (
            AetherError::PathTraversal(text()),
            "Path traversal detected in archive entry: what",
        ),
        (
            AetherError::CloudStorage(text()),
            "Cloud storage error: what",
        ),
        (
            AetherError::InvalidCloudPath(text()),
            "Invalid cloud path: what",
        ),
        (
            AetherError::InvalidCloudUrl(text()),
            "Invalid cloud URL: what",
        ),
        (
            AetherError::NonceMismatch { block_id: 1 },
            "Nonce mismatch for block 1: stored nonce does not match derived nonce",
        ),
        (
            AetherError::PasswordVerificationFailed,
            "Password verification failed: incorrect password or corrupted header",
        ),
        (
            AetherError::InvalidUtf8Path,
            "Non-UTF-8 file path in archive",
        ),
        (
            AetherError::HeaderIntegrityMismatch,
            "Header integrity check failed",
        ),
        (
            AetherError::FileAlreadyExists(text()),
            "File already exists (no_clobber mode): what",
        ),
    ] {
        assert_eq!(error.message(), message);
    }
}
