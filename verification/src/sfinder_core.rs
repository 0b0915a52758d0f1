pub mod field;
pub mod mino;
pub mod srs;
pub mod neighbor;
pub mod action;
pub mod column_field;
