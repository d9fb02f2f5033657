pub mod connectivity;
pub mod go_board;
pub mod go_game;
pub mod group_aggregator;
pub mod group_liberties_aggregator;
pub mod util;
