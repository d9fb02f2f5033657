pub mod place_piece_input;
pub mod place_piece_interactor;
pub mod place_piece_output;
pub mod place_piece_requester;
