//! The errors that the collection reports.

use vstd::prelude::*;

verus! {

#[derive(Clone, Copy, Debug, PartialEq, Eq, Structural)]
pub enum Error {
    /// A vector whose length differs from the collection's dimension.
    InvalidDimension { found: usize, expected: usize },
    /// Records handed over together that disagree on their length.
    InconsistentDimension { expected: usize },
    /// No live record has the identifier.
    RecordNotFound,
    /// The slot table would reach the largest identifier.
    CollectionLimit,
    /// The dimension can only be set while the collection is empty.
    CollectionNotEmpty,
    /// The name is that of no distance kernel.
    UnsupportedDistance,
    /// Records are counted but every slot is tombstoned.
    UnableToInitiateSearch,
}

impl Error {
    pub fn invalid_dimension(found: usize, expected: usize) -> (e: Error)
        ensures
            e == (Error::InvalidDimension { found, expected }),
    {
        Error::InvalidDimension { found, expected }
    }

    pub fn collection_limit() -> (e: Error)
        ensures
            e == Error::CollectionLimit,
    {
        Error::CollectionLimit
    }

    pub fn record_not_found() -> (e: Error)
        ensures
            e == Error::RecordNotFound,
    {
        Error::RecordNotFound
    }

    pub open spec fn spec_message(self) -> Seq<char> {
        match self {
            Error::InvalidDimension { .. } => "Invalid vector dimension."@,
            Error::InconsistentDimension { .. } => "The vector dimension is inconsistent."@,
            Error::RecordNotFound => "The vector record is not found."@,
            Error::CollectionLimit => "The collection limit is reached."@,
            Error::CollectionNotEmpty => "The collection must be empty."@,
            Error::UnsupportedDistance => "Distance function not supported."@,
            Error::UnableToInitiateSearch => "Unable to initiate search."@,
        }
    }

    /// What went wrong, in words.
    pub fn message(&self) -> (s: &'static str)
        ensures
            s@ == self.spec_message(),
    {
        match self {
            Error::InvalidDimension { .. } => "Invalid vector dimension.",
            Error::InconsistentDimension { .. } => "The vector dimension is inconsistent.",
            Error::RecordNotFound => "The vector record is not found.",
            Error::CollectionLimit => "The collection limit is reached.",
            Error::CollectionNotEmpty => "The collection must be empty.",
            Error::UnsupportedDistance => "Distance function not supported.",
            Error::UnableToInitiateSearch => "Unable to initiate search.",
        }
    }
}

} // verus!
