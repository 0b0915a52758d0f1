pub mod original_piece;
