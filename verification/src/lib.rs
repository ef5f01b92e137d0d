//! Verified core of a manga-library mirror.
//!
//! The library keeps a persisted mirror of an on-disk hierarchy of folders
//! containing image files ("panels").  Its heart is the incremental
//! synchronization engine: a path classifier, a chapter-order heuristic,
//! a staleness detector that diffs disk state against stored records, a
//! recursive tree synchronizer, and the orchestrator that combines them.
//! All decisions are made over plain values; the host performs the actual
//! directory reads and store writes around these functions.

pub mod database;
pub mod error;
pub mod heuristic;
pub mod order;
pub mod sync;
pub mod text;
