//! Interval scheduling engine: events with project:task labels, overlap
//! resolution, compaction, slot search and reporting.

pub mod event;
pub mod order;
pub mod resolve;
pub mod compact;
pub mod rounding;
pub mod text;
pub mod clock;
pub mod error;
pub mod range;
pub mod query;
pub mod report;
pub mod diff;
pub mod label;
pub mod edit;
pub mod listing;
pub mod export;
pub mod ids;
