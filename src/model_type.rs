use vstd::prelude::*;
use vstd::string::StringExecFns;

verus! {

/// The classifier backends the learner can be built with.
#[derive(Clone, Copy, Debug, PartialEq, Eq, Structural)]
pub enum ModelType {
    XGBoost,
}

/// The result of `str::to_lowercase`: a function of the characters alone.
pub uninterp spec fn lower_of(s: Seq<char>) -> Seq<char>;

/// Relies on `str::to_lowercase` for Unicode case folding.
#[verifier::external_body]
fn lowercase(s: &str) -> (r: String)
    ensures
        r@ == lower_of(s@),
{
    s.to_lowercase()
}

/// The text of the error for a model name that is not recognised.
pub open spec fn unknown_model_text(s: Seq<char>) -> Seq<char> {
    "Unknown model type: "@ + s
}

/// The error text for a model name that is not recognised.
fn unknown_model_message(s: &str) -> (r: String)
    ensures
        r@ == unknown_model_text(s@),
{
    let mut r = "Unknown model type: ".to_owned();
    r.append(s);
    proof {
        reveal_strlit("Unknown model type: ");
    }
    r
}

/// The model named by an already lower-cased name.
pub open spec fn model_of_folded(folded: Seq<char>) -> Option<ModelType> {
    if folded == "xgboost"@ {
        Some(ModelType::XGBoost)
    } else {
        None
    }
}

impl ModelType {
    /// Looks up a model by its lower-cased name.
    pub fn from_lowercase(folded: &String) -> (r: Option<ModelType>)
        ensures
            r == model_of_folded(folded@),
    {
        let key = "xgboost".to_owned();
        proof {
            reveal_strlit("xgboost");
        }
        if *folded == key {
            Some(ModelType::XGBoost)
        } else {
            None
        }
    }

    /// Parses a model name, ignoring case.
    pub fn from_str(s: &str) -> (r: Result<ModelType, String>)
        ensures
            match r {
                Ok(m) => model_of_folded(lower_of(s@)) == Some(m),
                Err(e) => model_of_folded(lower_of(s@)).is_none() && e@ == unknown_model_text(s@),
            },
    {
        let folded = lowercase(s);
        match ModelType::from_lowercase(&folded) {
            Some(m) => Ok(m),
            None => Err(unknown_model_message(s)),
        }
    }
}

} // verus!
