//! Semi-supervised rescoring of peptide-spectrum matches: target/decoy FDR
//! labeling, dataset bookkeeping, cross-validation folds and the
//! train/relabel loop that drives a pluggable classifier.
//!
//! Scores and feature values are order keys (`i64`): only their order
//! matters to the labeling, and a higher key is a higher score.

pub mod dataset;
pub mod error;
pub mod fdr;
pub mod folds;
pub mod laws;
pub mod model_type;
pub mod psm_scorer;
pub mod ranking;

pub use dataset::Dataset;
pub use error::ScorerError;
pub use fdr::FdrThreshold;
pub use model_type::ModelType;
pub use psm_scorer::{BestFeature, SemiSupervisedLearner, SemiSupervisedModel};
