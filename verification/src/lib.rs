//! Verified core of a one-way mirror backup tool: the mirror diff, scan filtering,
//! tag hierarchy, search-query construction and the sync bookkeeping.

pub mod text;
pub mod error;
pub mod order;
pub mod sync;
pub mod search;
pub mod tags;
pub mod task_manager;
pub mod watcher;
pub mod scheduler;
pub mod db;
pub mod tray;
