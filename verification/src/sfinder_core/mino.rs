pub mod piece;
pub mod mino;
pub mod mino_factory;
pub mod mino_transform;
pub mod mino_shifter;
pub mod passed_mino_shifter;
