pub mod rotate;
pub mod rotate_direction;
pub mod pattern;
pub mod offset;
pub mod offset_define;
pub mod mino_rotation;
pub mod mino_rotation_impl;
pub mod mino_rotation_no_180_impl;
pub mod srs_mino_rotation_factory;
pub mod spin_result;
pub mod mino_rotation_detail;
