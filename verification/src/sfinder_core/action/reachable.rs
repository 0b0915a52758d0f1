pub mod reachable;
pub mod locked_reachable;
pub mod locked_180_reachable;
pub mod harddrop_reachable;
pub mod reachable_facade;
pub mod deepdrop_reachable;
pub mod softdrop_t_only_reachable;
pub mod last_softdrop_reachable;
