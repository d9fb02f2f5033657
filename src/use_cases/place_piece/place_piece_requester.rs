use vstd::prelude::*;

use super::place_piece_input::PlacePieceInput;
use super::place_piece_output::PlacePieceOutput;

verus! {

/// Takes moves one at a time and answers each.
pub trait PlacePieceRequester {
    /// The state in which a move can be taken.
    spec fn is_ready(&self) -> bool;

    fn place_piece(&mut self, place_piece_input: PlacePieceInput) -> (output: PlacePieceOutput)
        requires
            old(self).is_ready(),
        ensures
            final(self).is_ready(),
    ;
}

} // verus!
