//! Bitboard-based Tetris field primitives, piece geometry, SRS rotation kicks and
//! reachability searches.

pub mod common;
pub mod sfinder_core;
pub mod sfinder_lib;
