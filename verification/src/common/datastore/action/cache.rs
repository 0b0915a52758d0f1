pub mod locked_cache;
pub mod minimal_locked_cache;
