pub mod boolean_walker;
pub mod coordinate_walker;
pub mod randoms;
