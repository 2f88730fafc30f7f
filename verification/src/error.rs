//! Structured engine errors; formatting is left to the caller.

use crate::budget::BudgetError;
use crate::codec;
use vstd::prelude::*;

verus! {

#[derive(Clone, Copy, Debug, Eq, PartialEq)]
pub enum Error {
    Allocation,
    Limit(&'static str),
    QuerySyntax { offset: usize },
    InvalidProfile,
    InvalidDocument,
    DuplicateDocument,
    ForeignRelation,
    InvalidParameters,
    InvalidState,
    InvalidStatistics,
    NonFiniteScore,
    Budget(BudgetError),
    Codec(codec::Error),
}

impl From<BudgetError> for Error {
    fn from(error: BudgetError) -> Self {
        Error::Budget(error)
    }
}

impl vstd::std_specs::convert::FromSpecImpl<BudgetError> for Error {
    open spec fn obeys_from_spec() -> bool {
        true
    }

    open spec fn from_spec(error: BudgetError) -> Self {
        Error::Budget(error)
    }
}

impl From<codec::Error> for Error {
    fn from(error: codec::Error) -> Self {
        Error::Codec(error)
    }
}

impl vstd::std_specs::convert::FromSpecImpl<codec::Error> for Error {
    open spec fn obeys_from_spec() -> bool {
        true
    }

    open spec fn from_spec(error: codec::Error) -> Self {
        Error::Codec(error)
    }
}

pub type Result<T> = core::result::Result<T, Error>;

/// A codec result seen as an engine result: the value is kept, the error is wrapped.
pub open spec fn lifted<T>(result: codec::Result<T>) -> Result<T> {
    match result {
        Ok(value) => Ok(value),
        Err(error) => Err(Error::Codec(error)),
    }
}

/// Wraps a codec error as an engine error.
pub fn lift<T>(result: codec::Result<T>) -> (lifted_result: Result<T>)
    ensures
        lifted_result == lifted(result),
{
    match result {
        Ok(value) => Ok(value),
        Err(error) => Err(Error::Codec(error)),
    }
}

} // verus!
