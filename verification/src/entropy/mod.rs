//! Predictors and the interface between them and the range coder.

pub mod bits;
pub mod context_mixer;
pub mod lz4_aware;
pub mod mtf_predictor;
pub mod neural_ssm;
pub mod order0;
pub mod rle_predictor;
pub mod tables;
pub mod traits;
pub mod words;

pub use context_mixer::{ContextMixer, ContextMixerConfig};
pub use lz4_aware::Lz4AwarePredictor;
pub use mtf_predictor::MtfPredictor;
pub use neural_ssm::{NeuralSsmConfig, NeuralSsmPredictor};
pub use order0::Order0Model;
pub use rle_predictor::RlePredictor;
pub use traits::ProbabilityPredictor;
