//! Checked payload formats over caller-owned buffers.

pub mod bytes;
pub mod dictionary;
pub mod fields;
pub mod offset_laws;
pub mod offsets;
pub mod position_blocks;
pub mod positions;
pub mod record_laws;
pub mod records;
pub mod source;

use vstd::prelude::*;

verus! {

#[derive(Clone, Copy, Debug, Eq, PartialEq, Structural)]
pub enum ErrorKind {
    Truncated,
    TrailingBytes,
    Overflow,
    NonCanonical,
    InvalidValue,
    InvalidOrder,
    InvalidUtf8,
    LimitExceeded,
    BadMagic,
    UnsupportedVersion,
    UnsupportedFeatures,
    UnknownTag,
}

#[derive(Clone, Copy, Debug, Eq, PartialEq, Structural)]
pub struct Error {
    pub offset: usize,
    pub kind: ErrorKind,
}

impl Error {
    pub fn new(offset: usize, kind: ErrorKind) -> (error: Self)
        ensures
            error == (Error { offset, kind }),
    {
        Error { offset, kind }
    }
}

pub type Result<T> = core::result::Result<T, Error>;

/// The failure of `kind` at byte `offset`.
pub open spec fn fail<T>(offset: int, kind: ErrorKind) -> Result<T> {
    Err(Error { offset: offset as usize, kind })
}

} // verus!
