pub mod minimal_action;
pub mod cache;
pub mod action_set;
