//! The errors of the library.

use crate::text::{append_decimal, append_hex, decimal, hex};
use vstd::prelude::*;
use vstd::string::*;

verus! {

/// What kind of input/output failure an [`AetherError::Io`] reports.
#[derive(Debug, Clone, Copy, PartialEq, Eq, Structural)]
pub enum IoErrorKind {
    /// The input ended before a fixed-size field was complete.
    UnexpectedEof,
    /// A parameter was outside its permitted range.
    InvalidInput,
    /// Any other failure of the surrounding system.
    Other,
}

/// All errors that can occur within AetherArch operations.
#[non_exhaustive]
#[allow(inconsistent_fields)]
#[derive(Debug)]
pub enum AetherError {
    InvalidMagic,
    UnsupportedVersion { major: u8, minor: u8 },
    ChecksumMismatch { block_id: u32, expected: String, actual: String },
    HeaderCrcMismatch { expected: u32, actual: u32 },
    BlockCrcMismatch { block_id: u32 },
    InvalidBlockMagic { offset: u64 },
    InvalidFooterMagic,
    Compression(String),
    Decompression(String),
    Encryption(String),
    Decryption(String),
    Predictor(String),
    Io { kind: IoErrorKind, message: String },
    BlockNotFound(u32),
    FileNotFound(String),
    TruncatedArchive { expected: u64, actual: u64 },
    UnknownCompressionMethod(u8),
    UnknownPredictorId(u16),
    UnknownContentType(u16),
    ResourceLimitExceeded(String),
    PathTraversal(String),
    CloudStorage(String),
    InvalidCloudPath(String),
    InvalidCloudUrl(String),
    NonceMismatch { block_id: u32 },
    PasswordVerificationFailed,
    InvalidUtf8Path,
    HeaderIntegrityMismatch,
    FileAlreadyExists(String),
}

/// The value of an [`AetherError`], with texts as character sequences.
#[allow(inconsistent_fields)]
pub enum ErrorModel {
    InvalidMagic,
    UnsupportedVersion { major: u8, minor: u8 },
    ChecksumMismatch { block_id: u32, expected: Seq<char>, actual: Seq<char> },
    HeaderCrcMismatch { expected: u32, actual: u32 },
    BlockCrcMismatch { block_id: u32 },
    InvalidBlockMagic { offset: u64 },
    InvalidFooterMagic,
    Compression(Seq<char>),
    Decompression(Seq<char>),
    Encryption(Seq<char>),
    Decryption(Seq<char>),
    Predictor(Seq<char>),
    Io { kind: IoErrorKind, message: Seq<char> },
    BlockNotFound(u32),
    FileNotFound(Seq<char>),
    TruncatedArchive { expected: u64, actual: u64 },
    UnknownCompressionMethod(u8),
    UnknownPredictorId(u16),
    UnknownContentType(u16),
    ResourceLimitExceeded(Seq<char>),
    PathTraversal(Seq<char>),
    CloudStorage(Seq<char>),
    InvalidCloudPath(Seq<char>),
    InvalidCloudUrl(Seq<char>),
    NonceMismatch { block_id: u32 },
    PasswordVerificationFailed,
    InvalidUtf8Path,
    HeaderIntegrityMismatch,
    FileAlreadyExists(Seq<char>),
}

impl View for AetherError {
    type V = ErrorModel;

    open spec fn view(&self) -> ErrorModel {
        match *self {
            AetherError::InvalidMagic => ErrorModel::InvalidMagic,
            AetherError::UnsupportedVersion { major, minor } => ErrorModel::UnsupportedVersion {
                major,
                minor,
            },
            AetherError::ChecksumMismatch { block_id, expected, actual } =>
                ErrorModel::ChecksumMismatch { block_id, expected: expected@, actual: actual@ },
            AetherError::HeaderCrcMismatch { expected, actual } => ErrorModel::HeaderCrcMismatch {
                expected,
                actual,
            },
            AetherError::BlockCrcMismatch { block_id } => ErrorModel::BlockCrcMismatch { block_id },
            AetherError::InvalidBlockMagic { offset } => ErrorModel::InvalidBlockMagic { offset },
            AetherError::InvalidFooterMagic => ErrorModel::InvalidFooterMagic,
            AetherError::Compression(m) => ErrorModel::Compression(m@),
            AetherError::Decompression(m) => ErrorModel::Decompression(m@),
            AetherError::Encryption(m) => ErrorModel::Encryption(m@),
            AetherError::Decryption(m) => ErrorModel::Decryption(m@),
            AetherError::Predictor(m) => ErrorModel::Predictor(m@),
            AetherError::Io { kind, message } => ErrorModel::Io { kind, message: message@ },
            AetherError::BlockNotFound(id) => ErrorModel::BlockNotFound(id),
            AetherError::FileNotFound(m) => ErrorModel::FileNotFound(m@),
            AetherError::TruncatedArchive { expected, actual } => ErrorModel::TruncatedArchive {
                expected,
                actual,
            },
            AetherError::UnknownCompressionMethod(v) => ErrorModel::UnknownCompressionMethod(v),
            AetherError::UnknownPredictorId(v) => ErrorModel::UnknownPredictorId(v),
            AetherError::UnknownContentType(v) => ErrorModel::UnknownContentType(v),
            AetherError::ResourceLimitExceeded(m) => ErrorModel::ResourceLimitExceeded(m@),
            AetherError::PathTraversal(m) => ErrorModel::PathTraversal(m@),
            AetherError::CloudStorage(m) => ErrorModel::CloudStorage(m@),
            AetherError::InvalidCloudPath(m) => ErrorModel::InvalidCloudPath(m@),
            AetherError::InvalidCloudUrl(m) => ErrorModel::InvalidCloudUrl(m@),
            AetherError::NonceMismatch { block_id } => ErrorModel::NonceMismatch { block_id },
            AetherError::PasswordVerificationFailed => ErrorModel::PasswordVerificationFailed,
            AetherError::InvalidUtf8Path => ErrorModel::InvalidUtf8Path,
            AetherError::HeaderIntegrityMismatch => ErrorModel::HeaderIntegrityMismatch,
            AetherError::FileAlreadyExists(m) => ErrorModel::FileAlreadyExists(m@),
        }
    }
}

/// Convenience type alias.
pub type Result<T> = std::result::Result<T, AetherError>;

/// Whether a result holds the bytes, or the error, that `model` says.
pub open spec fn same_bytes(
    r: Result<Vec<u8>>,
    model: std::result::Result<Seq<u8>, ErrorModel>,
) -> bool {
    match (r, model) {
        (Ok(v), Ok(s)) => v@ == s,
        (Err(e), Err(m)) => e@ == m,
        _ => false,
    }
}

/// The error of an input that ends inside a fixed-size field.
pub open spec fn eof_model() -> ErrorModel {
    ErrorModel::Io { kind: IoErrorKind::UnexpectedEof, message: "failed to fill whole buffer"@ }
}

/// Builds the error of an input that ends inside a fixed-size field.
pub fn unexpected_eof() -> (e: AetherError)
    ensures
        e@ == eof_model(),
{
    AetherError::Io {
        kind: IoErrorKind::UnexpectedEof,
        message: "failed to fill whole buffer".to_string(),
    }
}

impl ErrorModel {
    /// What the error says.
    pub open spec fn text(self) -> Seq<char> {
        match self {
            ErrorModel::InvalidMagic => "Invalid magic bytes: expected AetherArch header"@,
            ErrorModel::InvalidFooterMagic => "Footer magic mismatch"@,
            ErrorModel::PasswordVerificationFailed => "Password verification failed: incorrect password or corrupted header"@,
            ErrorModel::InvalidUtf8Path => "Non-UTF-8 file path in archive"@,
            ErrorModel::HeaderIntegrityMismatch => "Header integrity check failed"@,
            ErrorModel::Compression(m) => "Compression error: "@ + m,
            ErrorModel::Decompression(m) => "Decompression error: "@ + m,
            ErrorModel::Encryption(m) => "Encryption error: "@ + m,
            ErrorModel::Decryption(m) => "Decryption error: "@ + m,
            ErrorModel::Predictor(m) => "Predictor error: "@ + m,
            ErrorModel::FileNotFound(m) => "File not found in archive: "@ + m,
            ErrorModel::ResourceLimitExceeded(m) => "Resource limit exceeded: "@ + m,
            ErrorModel::PathTraversal(m) => "Path traversal detected in archive entry: "@ + m,
            ErrorModel::CloudStorage(m) => "Cloud storage error: "@ + m,
            ErrorModel::InvalidCloudPath(m) => "Invalid cloud path: "@ + m,
            ErrorModel::InvalidCloudUrl(m) => "Invalid cloud URL: "@ + m,
            ErrorModel::FileAlreadyExists(m) => "File already exists (no_clobber mode): "@ + m,
            ErrorModel::BlockCrcMismatch { block_id } => "Block CRC mismatch at block "@ + decimal(block_id as nat),
            ErrorModel::InvalidBlockMagic { offset } => "Invalid block magic at offset "@ + decimal(offset as nat),
            ErrorModel::BlockNotFound(id) => "Block "@ + decimal(id as nat) + " not found in index"@,
            ErrorModel::UnknownCompressionMethod(v) => "Unknown compression method: "@ + decimal(v as nat),
            ErrorModel::UnknownPredictorId(v) => "Unknown predictor ID: "@ + decimal(v as nat),
            ErrorModel::UnknownContentType(v) => "Unknown content type: "@ + decimal(v as nat),
            ErrorModel::NonceMismatch { block_id } => "Nonce mismatch for block "@ + decimal(block_id as nat) + ": stored nonce does not match derived nonce"@,
            ErrorModel::UnsupportedVersion { major, minor } => "Unsupported format version "@
                + decimal(major as nat) + "."@ + decimal(minor as nat),
            ErrorModel::ChecksumMismatch { block_id, expected, actual } =>
                "Block checksum mismatch at block "@ + decimal(block_id as nat) + ": expected "@
                    + expected + ", got "@ + actual,
            ErrorModel::HeaderCrcMismatch { expected, actual } =>
                "Header CRC mismatch: expected 0x"@ + hex(expected as nat, 8) + ", got 0x"@ + hex(
                    actual as nat,
                    8,
                ),
            ErrorModel::Io { kind, message } => "I/O error: "@ + message,
            ErrorModel::TruncatedArchive { expected, actual } =>
                "Truncated archive: expected at least "@ + decimal(expected as nat)
                    + " bytes, got "@ + decimal(actual as nat),
        }
    }
}

impl AetherError {
    /// What the error says.
    pub fn message(&self) -> (s: String)
        ensures
            s@ == self@.text(),
    {
        let mut s = String::new();
        match self {
            AetherError::InvalidMagic => {
                s.append("Invalid magic bytes: expected AetherArch header");
            },
            AetherError::InvalidFooterMagic => {
                s.append("Footer magic mismatch");
            },
            AetherError::PasswordVerificationFailed => {
                s.append("Password verification failed: incorrect password or corrupted header");
            },
            AetherError::InvalidUtf8Path => {
                s.append("Non-UTF-8 file path in archive");
            },
            AetherError::HeaderIntegrityMismatch => {
                s.append("Header integrity check failed");
            },
            AetherError::Compression(m) => {
                s.append("Compression error: ");
                s.append(m.as_str());
            },
            AetherError::Decompression(m) => {
                s.append("Decompression error: ");
                s.append(m.as_str());
            },
            AetherError::Encryption(m) => {
                s.append("Encryption error: ");
                s.append(m.as_str());
            },
            AetherError::Decryption(m) => {
                s.append("Decryption error: ");
                s.append(m.as_str());
            },
            AetherError::Predictor(m) => {
                s.append("Predictor error: ");
                s.append(m.as_str());
            },
            AetherError::FileNotFound(m) => {
                s.append("File not found in archive: ");
                s.append(m.as_str());
            },
            AetherError::ResourceLimitExceeded(m) => {
                s.append("Resource limit exceeded: ");
                s.append(m.as_str());
            },
            AetherError::PathTraversal(m) => {
                s.append("Path traversal detected in archive entry: ");
                s.append(m.as_str());
            },
            AetherError::CloudStorage(m) => {
                s.append("Cloud storage error: ");
                s.append(m.as_str());
            },
            AetherError::InvalidCloudPath(m) => {
                s.append("Invalid cloud path: ");
                s.append(m.as_str());
            },
            AetherError::InvalidCloudUrl(m) => {
                s.append("Invalid cloud URL: ");
                s.append(m.as_str());
            },
            AetherError::FileAlreadyExists(m) => {
                s.append("File already exists (no_clobber mode): ");
                s.append(m.as_str());
            },
            AetherError::BlockCrcMismatch { block_id } => {
                s.append("Block CRC mismatch at block ");
                append_decimal(&mut s, *block_id as u64);
            },
            AetherError::InvalidBlockMagic { offset } => {
                s.append("Invalid block magic at offset ");
                append_decimal(&mut s, *offset as u64);
            },
            AetherError::BlockNotFound(id) => {
                s.append("Block ");
                append_decimal(&mut s, *id as u64);
                s.append(" not found in index");
            },
            AetherError::UnknownCompressionMethod(v) => {
                s.append("Unknown compression method: ");
                append_decimal(&mut s, *v as u64);
            },
            AetherError::UnknownPredictorId(v) => {
                s.append("Unknown predictor ID: ");
                append_decimal(&mut s, *v as u64);
            },
            AetherError::UnknownContentType(v) => {
                s.append("Unknown content type: ");
                append_decimal(&mut s, *v as u64);
            },
            AetherError::NonceMismatch { block_id } => {
                s.append("Nonce mismatch for block ");
                append_decimal(&mut s, *block_id as u64);
                s.append(": stored nonce does not match derived nonce");
            },
            AetherError::UnsupportedVersion { major, minor } => {
                s.append("Unsupported format version ");
                append_decimal(&mut s, *major as u64);
                s.append(".");
                append_decimal(&mut s, *minor as u64);
            },
            AetherError::ChecksumMismatch { block_id, expected, actual } => {
                s.append("Block checksum mismatch at block ");
                append_decimal(&mut s, *block_id as u64);
                s.append(": expected ");
                s.append(expected.as_str());
                s.append(", got ");
                s.append(actual.as_str());
            },
            AetherError::HeaderCrcMismatch { expected, actual } => {
                s.append("Header CRC mismatch: expected 0x");
                append_hex(&mut s, *expected as u64, 8);
                s.append(", got 0x");
                append_hex(&mut s, *actual as u64, 8);
            },
            AetherError::Io { kind, message } => {
                s.append("I/O error: ");
                s.append(message.as_str());
            },
            AetherError::TruncatedArchive { expected, actual } => {
                s.append("Truncated archive: expected at least ");
                append_decimal(&mut s, *expected);
                s.append(" bytes, got ");
                append_decimal(&mut s, *actual);
            },
        }
        assert(s@ =~= self@.text());
        s
    }
}

/// What [`AetherError::message`] says of an error with a reason ends with the reason.
pub proof fn messages_end_with_the_reason(e: AetherError, s: String)
    requires
        call_ensures(AetherError::message, (&e,), s),
    ensures
        ({
            let reason = match e {
                AetherError::Compression(m) => m@,
                AetherError::Decompression(m) => m@,
                AetherError::Encryption(m) => m@,
                AetherError::Decryption(m) => m@,
                AetherError::Predictor(m) => m@,
                AetherError::FileNotFound(m) => m@,
                AetherError::ResourceLimitExceeded(m) => m@,
                AetherError::PathTraversal(m) => m@,
                AetherError::CloudStorage(m) => m@,
                AetherError::InvalidCloudPath(m) => m@,
                AetherError::InvalidCloudUrl(m) => m@,
                AetherError::FileAlreadyExists(m) => m@,
                AetherError::Io { kind, message } => message@,
                _ => Seq::empty(),
            };
            s@.len() >= reason.len() && s@.skip(s@.len() - reason.len()) == reason
        }),
{
    let reason = match e {
        AetherError::Compression(m) => m@,
        AetherError::Decompression(m) => m@,
        AetherError::Encryption(m) => m@,
        AetherError::Decryption(m) => m@,
        AetherError::Predictor(m) => m@,
        AetherError::FileNotFound(m) => m@,
        AetherError::ResourceLimitExceeded(m) => m@,
        AetherError::PathTraversal(m) => m@,
        AetherError::CloudStorage(m) => m@,
        AetherError::InvalidCloudPath(m) => m@,
        AetherError::InvalidCloudUrl(m) => m@,
        AetherError::FileAlreadyExists(m) => m@,
        AetherError::Io { kind, message } => message@,
        _ => Seq::empty(),
    };
    assert(s@.skip(s@.len() - reason.len()) =~= reason);
}

} // verus!
