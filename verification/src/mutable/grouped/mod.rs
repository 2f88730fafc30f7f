//! Physical grouped snapshots over the checked page-store boundary.
//! Maintenance requires the exclusive structural barrier before the writer lock.

pub mod anchors;
pub mod rebuild;
pub mod builder;
pub mod building;
pub mod capture;
pub mod capturing;
pub mod catalog;
pub mod covering;
pub mod frontier;
pub mod growing;
pub mod journal;
pub mod keeping;
pub mod publish;
pub mod records;
pub mod scan;
pub mod segments;
pub mod suffixes;
pub mod trees;
pub mod vacuum;
pub mod values;
