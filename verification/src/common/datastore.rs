pub mod coordinate;
pub mod action;
