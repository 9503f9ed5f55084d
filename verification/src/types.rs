use vstd::prelude::*;
use vstd::string::StringExecFns;

verus! {

/// Label for a trajectory point: a non-negative stop id, or `NON_STOP`.
pub type StopLabel = i32;

/// Label of a point that belongs to no stop (movement or rejected stay).
pub const NON_STOP: StopLabel = -1;

/// Which distance function the pipeline compares positions with.
#[derive(Debug, Clone, Copy, PartialEq, Eq, Structural)]
pub enum MetricKind {
    /// Great-circle distance in meters between latitude/longitude degrees.
    Haversine,
    /// Planar distance between x/y coordinates.
    Euclidean,
}

impl Default for MetricKind {
    fn default() -> (k: MetricKind)
        ensures
            k == MetricKind::Haversine,
    {
        MetricKind::Haversine
    }
}

/// Great-circle distance metric (inputs are degrees of latitude/longitude).
#[derive(Debug, Clone, Copy, Default)]
pub struct Haversine;

/// Planar Euclidean distance metric.
#[derive(Debug, Clone, Copy, Default)]
pub struct Euclidean;

/// Errors returned by fitting and its helpers.
#[derive(Debug, Clone, PartialEq, Eq)]
pub enum Error {
    /// Input data failed validation.
    InvalidInput(String),
    /// No stationary events were found for the given parameters.
    NoStopsFound,
    /// A method that requires a fitted model was called too early.
    NotFitted,
    /// I/O failure (for example while writing a map file).
    Io(String),
}

/// The human-readable text of an error.
pub open spec fn error_message(e: Error) -> Seq<char> {
    match e {
        Error::InvalidInput(msg) => "invalid input: "@ + msg@,
        Error::NoStopsFound =>
            "no stop events found; check that `r1`, `min_staying_time`, and `min_size` are chosen correctly"@,
        Error::NotFitted => "model must be fitted before this method can be used"@,
        Error::Io(msg) => "I/O error: "@ + msg@,
    }
}

impl Error {
    /// The message that describes this error to a user.
    pub fn message(&self) -> (s: String)
        ensures
            s@ == error_message(*self),
    {
        match self {
            Error::InvalidInput(msg) => String::from_str("invalid input: ").concat(msg.as_str()),
            Error::NoStopsFound => String::from_str(
                "no stop events found; check that `r1`, `min_staying_time`, and `min_size` are chosen correctly",
            ),
            Error::NotFitted => String::from_str("model must be fitted before this method can be used"),
            Error::Io(msg) => String::from_str("I/O error: ").concat(msg.as_str()),
        }
    }
}

} // verus!
