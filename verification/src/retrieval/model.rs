//! The twin-tower retrieval model: its dimensions, and what may be fed into it.

use vstd::prelude::*;

use crate::error::{invalid, RetrievalError};
use crate::floats::Single;
use crate::text::{decimal, decimal_text};

verus! {

pub const RETRIEVAL_KEYPOINTS: usize = 37;

pub const RETRIEVAL_FEATURE_DIM: usize = 111;

pub const DEFAULT_RETRIEVAL_HIDDEN_DIM: usize = 128;

pub const DEFAULT_RETRIEVAL_EMBEDDING_DIM: usize = 64;

/// The dimensions of both towers.
#[derive(Clone, Copy, Debug, PartialEq, Eq, Structural)]
pub struct RetrievalModelConfig {
    pub input_dim: usize,
    pub hidden_dim: usize,
    pub embedding_dim: usize,
}

impl Default for RetrievalModelConfig {
    fn default() -> (r: RetrievalModelConfig)
        ensures
            r.input_dim == RETRIEVAL_FEATURE_DIM,
            r.hidden_dim == DEFAULT_RETRIEVAL_HIDDEN_DIM,
            r.embedding_dim == DEFAULT_RETRIEVAL_EMBEDDING_DIM,
            r.input_dim == 111,
            r.hidden_dim == 128,
            r.embedding_dim == 64,
    {
        RetrievalModelConfig {
            input_dim: RETRIEVAL_FEATURE_DIM,
            hidden_dim: DEFAULT_RETRIEVAL_HIDDEN_DIM,
            embedding_dim: DEFAULT_RETRIEVAL_EMBEDDING_DIM,
        }
    }
}

impl RetrievalModelConfig {
    /// The words for the first dimension that is zero.
    pub open spec fn fault(self) -> Option<Seq<char>> {
        if self.input_dim == 0 {
            Some("retrieval model input_dim must be greater than zero"@)
        } else if self.hidden_dim == 0 {
            Some("retrieval model hidden_dim must be greater than zero"@)
        } else if self.embedding_dim == 0 {
            Some("retrieval model embedding_dim must be greater than zero"@)
        } else {
            None
        }
    }
}

/// Checks that no dimension is zero.
pub fn validate_model_config(config: &RetrievalModelConfig) -> (r: Result<(), RetrievalError>)
    ensures
        match config.fault() {
            Some(words) => r is Err && r->Err_0.says(words),
            None => r is Ok,
        },
        r is Ok == (config.input_dim > 0 && config.hidden_dim > 0 && config.embedding_dim > 0),
        config.input_dim == 0 ==> r is Err && r->Err_0.says(
            "retrieval model input_dim must be greater than zero"@,
        ),
        config.input_dim > 0 && config.hidden_dim == 0 ==> r is Err && r->Err_0.says(
            "retrieval model hidden_dim must be greater than zero"@,
        ),
        config.input_dim > 0 && config.hidden_dim > 0 && config.embedding_dim == 0 ==> r is Err
            && r->Err_0.says("retrieval model embedding_dim must be greater than zero"@),
{
    if config.input_dim == 0 {
        return invalid("retrieval model input_dim must be greater than zero");
    }
    if config.hidden_dim == 0 {
        return invalid("retrieval model hidden_dim must be greater than zero");
    }
    if config.embedding_dim == 0 {
        return invalid("retrieval model embedding_dim must be greater than zero");
    }
    Ok(())
}

/// The words for features of the wrong length.
pub open spec fn wrong_dim(actual: nat, expected: nat) -> Seq<char> {
    "feature dimension mismatch: expected "@ + decimal(expected) + ", got "@ + decimal(actual)
}

/// Checks the length of features.
pub fn ensure_feature_dim(actual: usize, expected: usize) -> (r: Result<(), RetrievalError>)
    ensures
        r is Ok == (actual == expected),
        r is Err ==> r->Err_0.says(wrong_dim(actual as nat, expected as nat)),
        r is Err ==> r->Err_0.says(
            "feature dimension mismatch: expected "@ + decimal(expected as nat) + ", got "@
                + decimal(actual as nat),
        ),
{
    if actual == expected {
        return Ok(());
    }
    let mut words = "feature dimension mismatch: expected ".to_owned();
    words.append(decimal_text(expected).as_str());
    words.append(", got ");
    words.append(decimal_text(actual).as_str());
    invalid(words.as_str())
}

/// Whether all values are finite.
pub open spec fn all_finite(values: Seq<Single>) -> bool {
    forall|i: int| 0 <= i < values.len() ==> (#[trigger] values[i]).finite()
}

/// Whether position `i` holds the first value that is not finite.
pub open spec fn first_not_finite(values: Seq<Single>, i: int) -> bool {
    &&& 0 <= i < values.len()
    &&& !values[i].finite()
    &&& all_finite(values.take(i))
}

/// The position of the first value that is not finite.
pub fn find_not_finite(values: &Vec<Single>) -> (r: Option<usize>)
    ensures
        match r {
            Some(i) => first_not_finite(values@, i as int) && !all_finite(values@),
            None => all_finite(values@),
        },
        r is None == forall|i: int| 0 <= i < values@.len() ==> (#[trigger] values@[i]).finite(),
        r is Some ==> r->0 < values@.len() && !values@[r->0 as int].finite() && forall|i: int|
            0 <= i < r->0 ==> (#[trigger] values@[i]).finite(),
{
    let n: usize = values.len();
    for i in 0..n
        invariant
            n == values@.len(),
            forall|j: int| 0 <= j < i ==> (#[trigger] values@[j]).finite(),
    {
        if !values[i].is_finite() {
            assert(!values@[i as int].finite());
            assert forall|j: int| 0 <= j < i implies (#[trigger] values@.take(i as int)[j]).finite() by {
                assert(values@[j].finite());
            }
            return Some(i);
        }
    }
    None
}

/// The words for a value that is not finite.
pub open spec fn not_finite_at(label: Seq<char>, i: nat) -> Seq<char> {
    label + " at index "@ + decimal(i) + " is not finite"@
}

/// Checks that all values are finite.
pub fn ensure_finite_values(label: &str, values: &Vec<Single>) -> (r: Result<(), RetrievalError>)
    ensures
        r is Ok == all_finite(values@),
        r is Err ==> exists|i: int| #[trigger]
            first_not_finite(values@, i) && r->Err_0.says(not_finite_at(label@, i as nat)),
        r is Err ==> exists|i: int|
            0 <= i < values@.len() && !(#[trigger] values@[i]).finite() && (forall|j: int|
                0 <= j < i ==> (#[trigger] values@[j]).finite()) && r->Err_0.says(
                label@ + " at index "@ + decimal(i as nat) + " is not finite"@,
            ),
{
    match find_not_finite(values) {
        Some(i) => {
            let mut words = label.to_owned();
            words.append(" at index ");
            words.append(decimal_text(i).as_str());
            words.append(" is not finite");
            assert(first_not_finite(values@, i as int));
            invalid(words.as_str())
        },
        None => Ok(()),
    }
}

/// Checks features before they go into a tower: first their length, then their values.
pub fn check_features(label: &str, features: &Vec<Single>, input_dim: usize) -> (r: Result<
    (),
    RetrievalError,
>)
    ensures
        r is Ok == (features@.len() == input_dim && all_finite(features@)),
        features@.len() != input_dim ==> r is Err && r->Err_0.says(
            wrong_dim(features@.len(), input_dim as nat),
        ),
        features@.len() == input_dim && r is Err ==> exists|i: int| #[trigger]
            first_not_finite(features@, i) && r->Err_0.says(not_finite_at(label@, i as nat)),
        features@.len() != input_dim ==> r->Err_0->0@ == "feature dimension mismatch: expected "@
            + decimal(input_dim as nat) + ", got "@ + decimal(features@.len()),
        features@.len() == input_dim && r is Err ==> exists|i: int|
            0 <= i < features@.len() && !(#[trigger] features@[i]).finite() && (forall|j: int|
                0 <= j < i ==> (#[trigger] features@[j]).finite()) && r->Err_0->0@ == label@
                + " at index "@ + decimal(i as nat) + " is not finite"@,
{
    match ensure_feature_dim(features.len(), input_dim) {
        Err(error) => Err(error),
        Ok(()) => ensure_finite_values(label, features),
    }
}

/// Where the dimensions of a model come from.
#[derive(Clone, Copy, Debug, PartialEq, Eq, Structural)]
pub enum ConfigSource {
    /// A file that was named.
    Named,
    /// The index that is searched.
    Index(RetrievalModelConfig),
    /// The file beside the model.
    BesideModel,
}

/// Decides where the dimensions of a model come from: a file that was named, else the index, else
/// a file beside the model.
pub fn retrieval_config_source(
    named: bool,
    index: Option<RetrievalModelConfig>,
    beside_model: bool,
) -> (r: Result<ConfigSource, RetrievalError>)
    ensures
        named ==> r == Ok::<ConfigSource, RetrievalError>(ConfigSource::Named),
        !named && index is Some ==> r == Ok::<ConfigSource, RetrievalError>(
            ConfigSource::Index(index->0),
        ),
        !named && index is None && beside_model ==> r == Ok::<ConfigSource, RetrievalError>(
            ConfigSource::BesideModel,
        ),
        !named && index is None && !beside_model ==> r is Err && r->Err_0.says(
            "retrieval config not found; pass --config or use a model directory with retrieval_config.json"@,
        ),
{
    if named {
        return Ok(ConfigSource::Named);
    }
    if let Some(config) = index {
        return Ok(ConfigSource::Index(config));
    }
    if beside_model {
        return Ok(ConfigSource::BesideModel);
    }
    invalid(
        "retrieval config not found; pass --config or use a model directory with retrieval_config.json",
    )
}

} // verus!
