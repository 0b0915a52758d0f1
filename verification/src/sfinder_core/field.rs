pub mod bits;
pub mod field_constants;
pub mod bit_operators;
pub mod key_operators;
pub mod long_board_map;
pub mod board_rows;
pub mod field;
pub mod small_field;
pub mod middle_field;
pub mod large_field;
pub mod any_field;
pub mod field_factory;
pub mod field_view;
