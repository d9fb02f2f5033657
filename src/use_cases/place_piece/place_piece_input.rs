use vstd::prelude::*;

use crate::domain::go_board::GoPlayer;

verus! {

/// A request to put a stone of `player` on `row`, `col`.
#[derive(Debug, Clone, Copy, PartialEq, Eq, Structural)]
pub struct PlacePieceInput {
    pub row: u32,
    pub col: u32,
    pub player: GoPlayer,
}

} // verus!
