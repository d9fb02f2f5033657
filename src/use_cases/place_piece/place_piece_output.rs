use vstd::prelude::*;
use vstd::string::StringExecFns;

use crate::domain::go_board::{GoBoardState, GoPlayer};

verus! {

/// The answer to a move: whether it was made, the board and the player to move after it, and
/// what was wrong with it when it was refused.
#[derive(PartialEq, Debug)]
pub struct PlacePieceOutput {
    pub success: bool,
    pub board_state: Option<GoBoardState>,
    pub next_player: Option<GoPlayer>,
    pub error_msg: Option<String>,
}

/// Why a move was refused.
#[derive(Debug, Clone, Copy, PartialEq, Eq, Structural)]
pub enum MoveError {
    WrongTurn { attempted: GoPlayer, expected: GoPlayer },
    InvalidCoordinate { attempted: GoPlayer },
    KoViolation { attempted: GoPlayer },
    OccupiedCell { attempted: GoPlayer, occupant: GoPlayer },
}

pub open spec fn player_name(p: GoPlayer) -> Seq<char> {
    match p {
        GoPlayer::BLACK => "BLACK"@,
        GoPlayer::WHITE => "WHITE"@,
    }
}

/// The text that reports `e`.
pub open spec fn message_text(e: MoveError) -> Seq<char> {
    match e {
        MoveError::WrongTurn { attempted, expected } => "The player "@ + player_name(attempted)
            + " tried to move when it is "@ + player_name(expected) + "'s turn."@,
        MoveError::InvalidCoordinate { attempted } => "The player "@ + player_name(attempted)
            + " tried to place a piece outside the board."@,
        MoveError::KoViolation { attempted } => "The player "@ + player_name(attempted)
            + " has violated the Ko rule."@,
        MoveError::OccupiedCell { attempted, occupant } => "The player "@ + player_name(attempted)
            + " tried to place a piece on a square occupied by "@ + player_name(occupant) + "."@,
    }
}

fn name_of(p: GoPlayer) -> (name: &'static str)
    ensures
        name@ == player_name(p),
{
    match p {
        GoPlayer::BLACK => "BLACK",
        GoPlayer::WHITE => "WHITE",
    }
}

impl MoveError {
    /// The text that reports this error.
    pub fn message(&self) -> (text: String)
        ensures
            text@ == message_text(*self),
    {
        let mut text = String::from_str("The player ");
        match *self {
            MoveError::WrongTurn { attempted, expected } => {
                text.append(name_of(attempted));
                text.append(" tried to move when it is ");
                text.append(name_of(expected));
                text.append("'s turn.");
            },
            MoveError::InvalidCoordinate { attempted } => {
                text.append(name_of(attempted));
                text.append(" tried to place a piece outside the board.");
            },
            MoveError::KoViolation { attempted } => {
                text.append(name_of(attempted));
                text.append(" has violated the Ko rule.");
            },
            MoveError::OccupiedCell { attempted, occupant } => {
                text.append(name_of(attempted));
                text.append(" tried to place a piece on a square occupied by ");
                text.append(name_of(occupant));
                text.append(".");
            },
        }
        text
    }
}

} // verus!
