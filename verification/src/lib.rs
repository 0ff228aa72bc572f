//! Core of the AetherArch archiver: the `.aet` container format, the reversible
//! transforms, the range coder with its predictors, block encryption and the
//! rules for cloud object names.
//!
//! What a function returns or changes is stated in its contract over sequences and
//! mathematical integers, and proved. Calls into other crates stand behind functions
//! whose contracts say what is relied on.

pub mod analyzer;
pub mod block;
pub mod builtin_dicts;
pub mod bytes;
pub mod chunker;
pub mod cloud;
pub mod coding;
pub mod commands;
pub mod crypto;
pub mod dictionary;
pub mod entropy;
pub mod error;
pub mod format;
pub mod grouper;
pub mod hashing;
pub mod header;
pub mod strings;
pub mod text;

pub use error::{AetherError, Result};
pub use format::{CompressionMethod, ContentType, PredictorId};
