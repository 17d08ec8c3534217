use vstd::prelude::*;

verus! {

/// Why a rescoring pass stopped.
#[derive(Clone, Debug, PartialEq, Eq)]
pub enum ScorerError {
    /// A feature column does not have one value per label.
    DimensionMismatch,
    /// No feature yields a single positive at the evaluation FDR.
    NoPositives,
    /// The fold count is zero or exceeds the number of rows.
    InvalidFoldCount,
    /// The classifier returned a number of scores other than the number of rows.
    PredictionCount,
    /// The classifier reported a failure.
    Classifier(String),
}

} // verus!
