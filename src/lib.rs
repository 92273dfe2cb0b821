//! Assigning people to small groups.
//!
//! Identifiers are gathered into groups of at most three, and a final list of
//! groups is reorganised so that every group holds two or three members.

pub mod group;
pub mod partition;
pub mod batch;
pub mod incremental;
pub mod label;
pub mod intake;
