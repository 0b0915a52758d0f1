pub mod column_field;
pub mod column_small_field;
pub mod column_field_factory;
pub mod column_field_view;
