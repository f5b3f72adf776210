//! Incremental, content-addressed line authorship over a commit history.
//!
//! The crate decides which per-file authorship records a commit can inherit
//! from its parents, keeps those records in an append-only store, resolves
//! author aliases, and aggregates line counts into per-author and per-year
//! series that are evenly spread over each calendar month.

pub mod aggregate;
pub mod authors;
pub mod blame;
pub mod blametree;
pub mod cache;
pub mod chart;
pub mod commit;
pub mod common;
pub mod equidistant;
pub mod exclude;
pub mod gather;
pub mod git;
pub mod graph;
pub mod report;
pub mod series;
pub mod store;
pub mod tally;
pub mod text;
pub mod zone;
