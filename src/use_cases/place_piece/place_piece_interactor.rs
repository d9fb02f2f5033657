use vstd::prelude::*;

use crate::domain::connectivity::{group_of, lemma_connected_ends, lemma_same_group, liberties_of, stone_of};
use crate::domain::go_board::{grid, is_square, opponent, states_equal, with_cell, GoPlayer};
use crate::domain::go_game::{
    board_after_move, is_captured, remove_captured, resolve_captures, GameView, GoGame, Snapshot,
};

use super::place_piece_input::PlacePieceInput;
use super::place_piece_output::{message_text, MoveError, PlacePieceOutput};
use super::place_piece_requester::PlacePieceRequester;

verus! {

/// The snapshot of two plies ago holds the current board and the cell `row`, `col`.
pub open spec fn violates_ko(v: GameView, row: u32, col: u32) -> bool {
    match v.history[1] {
        Some(s) => s.0 == v.board && s.1 == (row, col),
        None => false,
    }
}

/// Why a move is refused, checked in this order; `None` when it is taken.
pub open spec fn move_error(v: GameView, input: PlacePieceInput) -> Option<MoveError> {
    if input.player != v.current_player {
        Some(MoveError::WrongTurn { attempted: input.player, expected: v.current_player })
    } else if !(input.row < v.board.len() && input.col < v.board.len()) {
        Some(MoveError::InvalidCoordinate { attempted: input.player })
    } else if violates_ko(v, input.row, input.col) {
        Some(MoveError::KoViolation { attempted: input.player })
    } else if v.board[input.row as int][input.col as int] is Some {
        Some(
            MoveError::OccupiedCell {
                attempted: input.player,
                occupant: v.board[input.row as int][input.col as int]->Some_0,
            },
        )
    } else {
        None
    }
}

/// The game after a move: unchanged when the move is refused; else the other player is to move,
/// the stone stands with its captures made, and the board before the move is remembered with it.
pub open spec fn next_game(v: GameView, input: PlacePieceInput) -> GameView {
    if move_error(v, input) is Some {
        v
    } else {
        GameView {
            current_player: opponent(v.current_player),
            board: board_after_move(v.board, input.row as int, input.col as int, input.player),
            history: seq![Some((v.board, (input.row, input.col))), v.history[0]],
        }
    }
}

/// Capture takes whole groups. After a move, an opponent group left without a liberty is gone
/// from every one of its cells, and an opponent group that kept a liberty stays on every one.
pub proof fn lemma_capture_takes_whole_groups(v: GameView, input: PlacePieceInput, p: (int, int))
    requires
        is_square(v.board),
        move_error(v, input) is None,
        stone_of(with_cell(v.board, input.row as int, input.col as int, Some(input.player)), opponent(input.player), p),
    ensures
        ({
            let placed = with_cell(v.board, input.row as int, input.col as int, Some(input.player));
            let grp = group_of(placed, opponent(input.player), p);
            let after = next_game(v, input).board;
            &&& liberties_of(placed, grp) == Set::<(int, int)>::empty() ==> forall|q: (int, int)|
                #[trigger] grp.contains(q) ==> after[q.0][q.1] is None
            &&& liberties_of(placed, grp) != Set::<(int, int)>::empty() ==> forall|q: (int, int)|
                #[trigger] grp.contains(q) ==> after[q.0][q.1] == Some(opponent(input.player))
        }),
{
    let placed = with_cell(v.board, input.row as int, input.col as int, Some(input.player));
    let color = opponent(input.player);
    let grp = group_of(placed, color, p);
    let after = next_game(v, input).board;
    assert(after == resolve_captures(placed, color));
    assert forall|q: (int, int)| #[trigger] grp.contains(q) implies after[q.0][q.1] == if liberties_of(
        placed,
        grp,
    ) == Set::<(int, int)>::empty() {
        None
    } else {
        Some(color)
    } by {
        lemma_connected_ends(placed, color, p, q);
        lemma_same_group(placed, color, p, q);
        assert(placed[q.0].len() == placed.len());
        assert(is_captured(placed, color, q) == (liberties_of(placed, grp) == Set::<(int, int)>::empty()));
    }
}

/// A move that at once retakes on the cell of the move two plies before, and so brings back the
/// board from before that move, is refused as a ko violation.
pub proof fn lemma_ko_refuses_immediate_retake(v0: GameView, m1: PlacePieceInput, m2: PlacePieceInput)
    requires
        move_error(v0, m1) is None,
        move_error(next_game(v0, m1), m2) is None,
        next_game(next_game(v0, m1), m2).board == v0.board,
    ensures
        move_error(next_game(next_game(v0, m1), m2), m1) == Some(MoveError::KoViolation { attempted: m1.player }),
{
    let v1 = next_game(v0, m1);
    let v2 = next_game(v1, m2);
    assert(v1.history[0] == Some((v0.board, (m1.row, m1.col))));
    assert(v2.history[1] == v1.history[0]);
    assert(v2.current_player == m1.player) by {
        match v0.current_player {
            GoPlayer::BLACK => {},
            GoPlayer::WHITE => {},
        }
    }
}

/// The ko check looks two plies back and no further: after two moves were taken, a move on any
/// cell other than that of the first of them is never refused as a ko violation.
pub proof fn lemma_ko_looks_two_plies_back(
    v0: GameView,
    m1: PlacePieceInput,
    m2: PlacePieceInput,
    m3: PlacePieceInput,
)
    requires
        move_error(v0, m1) is None,
        move_error(next_game(v0, m1), m2) is None,
        (m3.row, m3.col) != (m1.row, m1.col),
    ensures
        move_error(next_game(next_game(v0, m1), m2), m3) != Some(MoveError::KoViolation { attempted: m3.player }),
{
    let v1 = next_game(v0, m1);
    let v2 = next_game(v1, m2);
    assert(v2.history[1] == Some((v0.board, (m1.row, m1.col))));
}

impl GoGame {
    /// Whether playing `row`, `col` would bring back the snapshot `state_before_last`.
    pub fn has_violated_ko_rule(&self, state_before_last: Option<&Snapshot>, row: u32, col: u32) -> (violated: bool)
        ensures
            violated == match state_before_last {
                Some(s) => grid(s.state) == self.board@ && s.chosen_move == (row, col),
                None => false,
            },
    {
        match state_before_last {
            Some(s) => states_equal(&self.board.board_state, &s.state) && s.chosen_move.0 == row
                && s.chosen_move.1 == col,
            None => false,
        }
    }

    fn refuse(&self, error: MoveError) -> (output: PlacePieceOutput)
        ensures
            !output.success,
            output.board_state is Some,
            grid(output.board_state->Some_0) == self.board@,
            output.next_player == Some(self.current_player),
            output.error_msg is Some,
            output.error_msg->Some_0@ == message_text(error),
    {
        PlacePieceOutput {
            success: false,
            board_state: Some(self.board.snapshot()),
            next_player: Some(self.current_player),
            error_msg: Some(error.message()),
        }
    }
}

impl PlacePieceRequester for GoGame {
    open spec fn is_ready(&self) -> bool {
        self.wf()
    }

    /// Checks the turn, the cell, the ko rule and that the cell is empty, in that order; a move
    /// that passes them all is made, the opponent's groups left without a liberty are captured,
    /// and the turn passes.
    fn place_piece(&mut self, place_piece_input: PlacePieceInput) -> (output: PlacePieceOutput)
        ensures
            final(self)@ == next_game(old(self)@, place_piece_input),
            output.success == (move_error(old(self)@, place_piece_input) is None),
            output.success ==> final(self).current_player == opponent(old(self).current_player),
            !output.success ==> final(self).current_player == old(self).current_player,
            !output.success ==> final(self)@ == old(self)@,
            output.next_player == Some(final(self).current_player),
            output.board_state is Some,
            grid(output.board_state->Some_0) == final(self)@.board,
            output.success ==> output.error_msg is None,
            !output.success ==> output.error_msg is Some && output.error_msg->Some_0@ == message_text(
                move_error(old(self)@, place_piece_input)->Some_0,
            ),
    {
        let ghost v = self@;
        let input = place_piece_input;
        if input.player != self.current_player {
            return self.refuse(MoveError::WrongTurn { attempted: input.player, expected: self.current_player });
        }
        let row = input.row;
        let col = input.col;
        let n = self.board.board_state.len();
        if row as usize >= n || col as usize >= n {
            return self.refuse(MoveError::InvalidCoordinate { attempted: input.player });
        }
        let cloned_board_before_change = self.board.snapshot();
        let state_before_last = self.two_previous_states[1].as_ref();
        if self.has_violated_ko_rule(state_before_last, row, col) {
            return self.refuse(MoveError::KoViolation { attempted: self.current_player });
        }
        let ghost placed_from = self.board@;
        assert(placed_from[row as int].len() == placed_from.len());
        let occupant = self.board.board_state[row as usize][col as usize];
        if self.board.place(row, col, &input.player) {
            self.current_player = match self.current_player {
                GoPlayer::BLACK => GoPlayer::WHITE,
                GoPlayer::WHITE => GoPlayer::BLACK,
            };
            remove_captured(&mut self.board, self.current_player);
            self.two_previous_states.pop();
            self.two_previous_states.insert(
                0,
                Some(Snapshot { state: cloned_board_before_change, chosen_move: (row, col) }),
            );
            proof {
                assert(self@.history =~= seq![Some((v.board, (row, col))), v.history[0]]);
            }
            PlacePieceOutput {
                success: true,
                board_state: Some(self.board.snapshot()),
                next_player: Some(self.current_player),
                error_msg: None,
            }
        } else {
            self.refuse(MoveError::OccupiedCell { attempted: input.player, occupant: occupant.unwrap() })
        }
    }
}

} // verus!
