//! Error type and name aliases shared by the whole engine.

use vstd::prelude::*;

verus! {

/// Every failure the engine can report.
#[derive(Debug, Clone, PartialEq, Eq)]
pub enum FuzzyError {
    /// A curve was built from fewer than two points, or a centroid was
    /// requested over a degenerate (zero-area or unsorted) curve, or an
    /// arithmetic step left the representable rational range.
    InvalidPoints,
    /// A rule or query referenced a category that was never registered.
    InvalidCategory(String),
    /// A requested term name is absent from its fuzzy set.
    InvalidTerm(String),
    /// Failures of collaborators outside the numeric core.
    Misc(String),
}

pub type FuzzyResult<T> = Result<T, FuzzyError>;

pub type Category = String;

pub type Term = String;

pub type FuzzyIdent = (Category, Term);

} // verus!
