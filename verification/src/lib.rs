//! Tiered retention of time-ordered filesystem snapshots.
//!
//! The crate decides which snapshots of a volume are kept and which are
//! cleaned, validates the retention configuration, recognises snapshot
//! directories by the shape of their names, and guards every deletion with a
//! structural check of the target path.

pub mod clean;
pub mod cli;
pub mod config;
pub mod snapshot;
pub mod text;
