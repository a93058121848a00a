use vstd::prelude::*;

verus! {

/// Failures that the monitor reports to its callers.
#[derive(Clone, Debug, PartialEq, Eq)]
pub enum ApiError {
    /// The submitted URL is not an absolute, well-formed URL.
    Validation,
    /// No site is registered under the given alias.
    NotFound,
    /// The storage layer failed; the text describes the failure.
    Storage(String),
    /// A probe could not reach its site; the text describes the failure.
    Probe(String),
    /// The requested aggregation is not available.
    NotSupported,
}

} // verus!
