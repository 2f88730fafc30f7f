//! Recoverable, single-writer mutable storage independent of host pointers.

pub mod answers;
pub mod block_phrase;
pub mod compact;
pub mod compaction;
pub mod conditions;
pub mod count;
pub mod counting;
pub mod document;
pub mod document_positions;
pub mod document_seek;
pub mod frontier;
pub mod grouped;
pub mod insertion;
pub mod keeping;
pub mod laws;
pub mod linking;
pub mod linking_terms;
pub mod listing;
pub mod lists;
pub mod membership;
pub mod memory;
pub mod page;
pub mod phrase_laws;
pub mod phrase_prefix;
pub mod phrases;
pub mod prepare;
pub mod query;
pub mod quiet;
pub mod reader;
pub mod recovery;
pub mod resting;
pub mod sealing;
pub mod rewriting;
pub mod roster;
pub mod steps;
pub mod store;
pub mod vacuum;
pub mod vacuuming;
pub mod walk;
pub mod witness;
pub mod work;
pub mod writer;

pub use compact::{compact, recover as recover_compaction, CompactStats};
pub use reader::scan;
pub use store::{PageStore, Stage};
pub use vacuum::{vacuum, VacuumStats};
pub use writer::{initialize, insert};
