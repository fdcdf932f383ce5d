//! A process manager's core: process snapshots, their ordering and selection,
//! the parent/child tree view and the human-readable formatting of sizes and times.
pub mod commands;
pub mod process_info;
pub mod text;
