//! Incremental grouping and ordering of browser tabs.
//!
//! A window holds tabs in order; the engine keeps them partitioned into
//! named groups under one of six sort modes, sorted, and updates that
//! partition one tab at a time as tabs come, go and change.
pub mod text;
pub mod keys;
pub mod index;
pub mod engine;
pub mod laws;
pub mod search;
pub mod changes;
