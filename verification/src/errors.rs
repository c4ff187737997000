use crate::path::{path_view, PathStep, StepView};
use vstd::prelude::*;

verus! {

/// `std::io::Error`: an error of reading or writing, carried as it is.
/// Nothing is claimed of what it holds.
#[verifier::external_type_specification]
#[verifier::external_body]
pub struct ExIoError(std::io::Error);

/// `serde_json::Error`: the error of a parser of JSON text, carried as
/// it is. Nothing is claimed of what it holds.
#[verifier::external_type_specification]
#[verifier::external_body]
pub struct ExJsonError(serde_json::Error);

/// Why a value has no scalar.
#[derive(Debug, Clone, Copy, PartialEq, Eq, Structural)]
pub enum EncodingError {
    /// The number is not integral.
    NotIntegral,
    /// The integer is `2^64` or more in magnitude.
    OutOfRange,
}

/// Why a leaf has no commitment.
#[derive(Debug, Clone, Copy, PartialEq, Eq, Structural)]
pub enum LeafError {
    /// The value has no scalar.
    Encoding(EncodingError),
    /// Hashing to the curve or to a scalar reported an error. Under the
    /// tags of this library it reports none.
    Hash,
}

/// A leaf that has no commitment, and why.
#[derive(Debug, PartialEq, Eq)]
pub struct LeafFailure {
    pub path: Vec<PathStep>,
    pub error: LeafError,
}

/// What a `LeafFailure` stands for.
pub struct FailureView {
    pub path: Seq<StepView>,
    pub error: LeafError,
}

impl View for LeafFailure {
    type V = FailureView;

    open spec fn view(&self) -> FailureView {
        FailureView { path: path_view(self.path@), error: self.error }
    }
}

/// The leaves of a document that have no commitment, in the order in
/// which they were met: at least one.
#[derive(Debug, PartialEq, Eq)]
pub struct CommitError {
    pub failures: Vec<LeafFailure>,
}

impl View for CommitError {
    type V = Seq<FailureView>;

    open spec fn view(&self) -> Seq<FailureView> {
        self.failures@.map_values(|f: LeafFailure| f@)
    }
}

/// What can go wrong.
#[derive(Debug)]
pub enum JcError {
    /// An operation on the curve failed.
    Crypto(String),
    /// Reading or writing failed.
    Io(std::io::Error),
    /// A text is no JSON.
    Json(serde_json::Error),
    /// Anything else, such as an aggregation that was ended before every
    /// leaf had its outcome.
    Other(String),
    /// A value has no scalar.
    Encoding(EncodingError),
    /// Some leaves of a document have no commitment.
    Commit(CommitError),
    /// The deadline passed before every leaf was committed.
    Timeout,
}

impl From<std::io::Error> for JcError {
    fn from(e: std::io::Error) -> (r: JcError)
        ensures
            r == JcError::Io(e),
    {
        JcError::Io(e)
    }
}

impl vstd::std_specs::convert::FromSpecImpl<std::io::Error> for JcError {
    open spec fn obeys_from_spec() -> bool {
        true
    }

    open spec fn from_spec(e: std::io::Error) -> JcError {
        JcError::Io(e)
    }
}

impl From<serde_json::Error> for JcError {
    fn from(e: serde_json::Error) -> (r: JcError)
        ensures
            r == JcError::Json(e),
    {
        JcError::Json(e)
    }
}

impl vstd::std_specs::convert::FromSpecImpl<serde_json::Error> for JcError {
    open spec fn obeys_from_spec() -> bool {
        true
    }

    open spec fn from_spec(e: serde_json::Error) -> JcError {
        JcError::Json(e)
    }
}

impl JcError {
    /// The error that reports why one leaf has no commitment.
    pub fn from_leaf(error: LeafError) -> (r: JcError)
        ensures
            reports(r, error),
    {
        match error {
            LeafError::Encoding(e) => JcError::Encoding(e),
            LeafError::Hash => JcError::Crypto("hashing failed".to_owned()),
        }
    }
}

/// Whether an error is the one that reports a leaf's failure.
pub open spec fn reports(error: JcError, leaf: LeafError) -> bool {
    match leaf {
        LeafError::Encoding(e) => error == JcError::Encoding(e),
        LeafError::Hash => error is Crypto,
    }
}

} // verus!
