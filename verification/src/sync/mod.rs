//! The mirror engine: scanning, diffing and the bookkeeping of a sync run.

pub mod path_map;
pub mod filter;
pub mod scanner;
pub mod diff;
pub mod executor;
pub mod engine;
