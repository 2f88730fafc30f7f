//! Host-independent identities, checked formats and deterministic reference search.
//!
//! Contracts are stated over mathematical models of the data: bytes are
//! sequences, parsers are functions from sequences to results.

pub mod analysis;
pub mod budget;
pub mod callbacks;
pub mod candidate;
pub mod codec;
pub mod error;
pub mod folding;
pub mod grouped;
pub mod identity;
pub mod index;
pub mod mask;
pub mod meaning;
pub mod memory;
pub mod mutable;
pub mod normalize;
pub mod oracle;
pub mod query;
pub mod sort;
pub mod text;

use vstd::prelude::*;

verus! {

/// The server major version that page images belong to.
pub const POSTGRES_MAJOR: u32 = 18;

/// The page size in bytes.
pub const PAGE_BYTES: usize = 8192;

} // verus!
