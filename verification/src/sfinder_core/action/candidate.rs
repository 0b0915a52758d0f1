pub mod candidate;
pub mod harddrop_candidate;
pub mod locked_180_candidate;
pub mod softdrop_t_only_candidate;
