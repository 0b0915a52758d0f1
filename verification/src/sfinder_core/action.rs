pub mod common;
pub mod locked_moves;
pub mod reachable;
pub mod candidate;
