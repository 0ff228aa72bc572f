//! Reversible transforms and entropy coding.

pub mod bcj;
pub mod bwt_preprocess;
pub mod byteplane_preprocess;
pub mod cdf;
pub mod lz77_preprocess;
pub mod lz_preprocess;
pub mod rans;
pub mod zstd_fallback;
