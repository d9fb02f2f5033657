pub mod place_piece;
