use go_engine::domain::go_board::{GoBoard, GoPlayer};
use go_engine::domain::go_game::{GoGame, Snapshot};
use go_engine::use_cases::place_piece::place_piece_input::PlacePieceInput;
use go_engine::use_cases::place_piece::place_piece_output::{MoveError, PlacePieceOutput};
use go_engine::use_cases::place_piece::place_piece_requester::PlacePieceRequester;

#[test]
fn test_place_black_piece() {
    let mut game = GoGame::new(19);
    let input = PlacePieceInput { row: 0, col: 0, player: GoPlayer::BLACK };

    let output = game.place_piece(input);

    let mut expected_board_state = GoBoard::new(19).board_state;
    expected_board_state[0][0] = Some(GoPlayer::BLACK);

    let expected_output = PlacePieceOutput {
        success: true,
        board_state: Some(expected_board_state),
        next_player: Some(GoPlayer::WHITE),
        error_msg: None,
    };

    assert_eq!(expected_output, output);
}

#[test]
fn test_place_piece_wrong_player() {
    let mut game = GoGame::new(19);
    let input = PlacePieceInput { row: 0, col: 0, player: GoPlayer::WHITE };

    let output = game.place_piece(input);

    let expected_board_state = GoBoard::new(19).board_state;

    let expected_output = PlacePieceOutput {
        success: false,
        board_state: Some(expected_board_state),
        next_player: Some(GoPlayer::BLACK),
        error_msg: Some(String::from("The player WHITE tried to move when it is BLACK's turn.")),
    };

    assert_eq!(expected_output, output);
}

#[test]
fn test_place_piece_already_there() {
    let mut game = GoGame::new(19);
    let input = PlacePieceInput { row: 0, col: 0, player: GoPlayer::BLACK };

    let output = game.place_piece(input);

    let mut expected_board_state = GoBoard::new(19).board_state;
    expected_board_state[0][0] = Some(GoPlayer::BLACK);

    let expected_output = PlacePieceOutput {
        success: true,
        board_state: Some(expected_board_state),
        next_player: Some(GoPlayer::WHITE),
        error_msg: None,
    };

    assert_eq!(expected_output, output);

    let input = PlacePieceInput { row: 0, col: 0, player: GoPlayer::WHITE };

    let output = game.place_piece(input);

    let expected_output = PlacePieceOutput {
        success: false,
        board_state: Some(game.board.board_state.clone()),
        next_player: Some(GoPlayer::WHITE),
        error_msg: Some(String::from(
            "The player WHITE tried to place a piece on a square occupied by BLACK.",
        )),
    };

    assert_eq!(expected_output, output);
}

#[test]
fn test_take_white_group() {
    let mut game = GoGame::new(2);
    game.place_piece(PlacePieceInput { row: 0, col: 1, player: GoPlayer::BLACK });
    game.place_piece(PlacePieceInput { row: 0, col: 0, player: GoPlayer::WHITE });
    let output = game.place_piece(PlacePieceInput { row: 1, col: 0, player: GoPlayer::BLACK });

    let mut expected_board_state = GoBoard::new(2).board_state;
    expected_board_state[0][1] = Some(GoPlayer::BLACK);
    expected_board_state[1][0] = Some(GoPlayer::BLACK);

    let expected_output = PlacePieceOutput {
        success: true,
        board_state: Some(expected_board_state),
        next_player: Some(GoPlayer::WHITE),
        error_msg: None,
    };

    assert_eq!(expected_output, output);
}

fn ko_position() -> GoGame {
    let mut game = GoGame::new(4);

    //| |O|X| |
    //|O|X| |X|
    //| |O|X| |
    //| | | | |

    game.place_piece(PlacePieceInput { row: 0, col: 2, player: GoPlayer::BLACK });
    game.place_piece(PlacePieceInput { row: 0, col: 1, player: GoPlayer::WHITE });
    game.place_piece(PlacePieceInput { row: 1, col: 1, player: GoPlayer::BLACK });
    game.place_piece(PlacePieceInput { row: 1, col: 0, player: GoPlayer::WHITE });
    game.place_piece(PlacePieceInput { row: 2, col: 2, player: GoPlayer::BLACK });
    game.place_piece(PlacePieceInput { row: 2, col: 1, player: GoPlayer::WHITE });
    game.place_piece(PlacePieceInput { row: 1, col: 3, player: GoPlayer::BLACK });
    game
}

#[test]
fn test_violate_ko() {
    let mut game = ko_position();

    let mut expected_board_state = GoBoard::new(4).board_state;
    expected_board_state[0][1] = Some(GoPlayer::WHITE);
    expected_board_state[1][0] = Some(GoPlayer::WHITE);
    expected_board_state[2][1] = Some(GoPlayer::WHITE);

    expected_board_state[0][2] = Some(GoPlayer::BLACK);
    expected_board_state[1][3] = Some(GoPlayer::BLACK);
    expected_board_state[2][2] = Some(GoPlayer::BLACK);
    expected_board_state[1][1] = Some(GoPlayer::BLACK);

    assert_eq!(expected_board_state, game.board.board_state);

    //White takes black
    game.place_piece(PlacePieceInput { row: 1, col: 2, player: GoPlayer::WHITE });

    //| |O|X| |
    //|O| |O|X|
    //| |O|X| |
    //| | | | |

    let mut expected_board_state = GoBoard::new(4).board_state;
    expected_board_state[0][1] = Some(GoPlayer::WHITE);
    expected_board_state[1][0] = Some(GoPlayer::WHITE);
    expected_board_state[2][1] = Some(GoPlayer::WHITE);
    expected_board_state[1][2] = Some(GoPlayer::WHITE);

    expected_board_state[0][2] = Some(GoPlayer::BLACK);
    expected_board_state[1][3] = Some(GoPlayer::BLACK);
    expected_board_state[2][2] = Some(GoPlayer::BLACK);

    assert_eq!(expected_board_state, game.board.board_state);

    //Black takes white
    game.place_piece(PlacePieceInput { row: 1, col: 1, player: GoPlayer::BLACK });

    //| |O|X| |
    //|O|X| |X|
    //| |O|X| |
    //| | | | |

    let mut expected_board_state = GoBoard::new(4).board_state;
    expected_board_state[0][1] = Some(GoPlayer::WHITE);
    expected_board_state[1][0] = Some(GoPlayer::WHITE);
    expected_board_state[2][1] = Some(GoPlayer::WHITE);

    expected_board_state[0][2] = Some(GoPlayer::BLACK);
    expected_board_state[1][3] = Some(GoPlayer::BLACK);
    expected_board_state[2][2] = Some(GoPlayer::BLACK);
    expected_board_state[1][1] = Some(GoPlayer::BLACK);

    assert_eq!(expected_board_state, game.board.board_state);

    //White violates ko rule

    let output = game.place_piece(PlacePieceInput { row: 1, col: 2, player: GoPlayer::WHITE });

    let expected_output = PlacePieceOutput {
        success: false,
        board_state: Some(expected_board_state),
        next_player: Some(GoPlayer::WHITE),
        error_msg: Some(String::from("The player WHITE has violated the Ko rule.")),
    };

    assert_eq!(expected_output, output);

    let mut expected_board_state = GoBoard::new(4).board_state;
    expected_board_state[0][1] = Some(GoPlayer::WHITE);
    expected_board_state[1][0] = Some(GoPlayer::WHITE);
    expected_board_state[2][1] = Some(GoPlayer::WHITE);
    expected_board_state[3][3] = Some(GoPlayer::WHITE);

    expected_board_state[0][2] = Some(GoPlayer::BLACK);
    expected_board_state[1][3] = Some(GoPlayer::BLACK);
    expected_board_state[2][2] = Some(GoPlayer::BLACK);
    expected_board_state[1][1] = Some(GoPlayer::BLACK);

    //White moves legally
    let output = game.place_piece(PlacePieceInput { row: 3, col: 3, player: GoPlayer::WHITE });

    let expected_output = PlacePieceOutput {
        success: true,
        board_state: Some(expected_board_state),
        next_player: Some(GoPlayer::BLACK),
        error_msg: None,
    };

    assert_eq!(expected_output, output);
}

// After moves elsewhere, the retake on the ko cell is no longer refused.
#[test]
fn ko_retake_after_moves_elsewhere_is_legal() {
    let mut game = ko_position();
    assert!(game.place_piece(PlacePieceInput { row: 1, col: 2, player: GoPlayer::WHITE }).success);
    assert!(game.place_piece(PlacePieceInput { row: 1, col: 1, player: GoPlayer::BLACK }).success);
    assert!(!game.place_piece(PlacePieceInput { row: 1, col: 2, player: GoPlayer::WHITE }).success);
    assert!(game.place_piece(PlacePieceInput { row: 3, col: 3, player: GoPlayer::WHITE }).success);
    assert!(game.place_piece(PlacePieceInput { row: 3, col: 0, player: GoPlayer::BLACK }).success);
    let output = game.place_piece(PlacePieceInput { row: 1, col: 2, player: GoPlayer::WHITE });
    assert!(output.success);
    assert_eq!(None, game.board.board_state[1][1]);
    assert_eq!(Some(GoPlayer::WHITE), game.board.board_state[1][2]);
}

// A single-stone capture with no capture just before it is not a ko violation.
#[test]
fn capture_at_another_cell_is_not_ko() {
    let mut game = GoGame::new(3);
    assert!(game.place_piece(PlacePieceInput { row: 0, col: 0, player: GoPlayer::BLACK }).success);
    assert!(game.place_piece(PlacePieceInput { row: 0, col: 1, player: GoPlayer::WHITE }).success);
    assert!(game.place_piece(PlacePieceInput { row: 2, col: 2, player: GoPlayer::BLACK }).success);
    let output = game.place_piece(PlacePieceInput { row: 1, col: 0, player: GoPlayer::WHITE });
    assert!(output.success);
    assert_eq!(None, game.board.board_state[0][0]);
    assert!(game.place_piece(PlacePieceInput { row: 1, col: 1, player: GoPlayer::BLACK }).success);
    assert!(game.place_piece(PlacePieceInput { row: 2, col: 0, player: GoPlayer::WHITE }).success);
}

// Turn alternates after an accepted move and stays after a refused one.
#[test]
fn turn_alternates_only_on_accepted_moves() {
    let mut game = GoGame::new(3);
    assert_eq!(GoPlayer::BLACK, game.current_player);
    assert!(!game.place_piece(PlacePieceInput { row: 0, col: 0, player: GoPlayer::WHITE }).success);
    assert_eq!(GoPlayer::BLACK, game.current_player);
    assert!(game.place_piece(PlacePieceInput { row: 0, col: 0, player: GoPlayer::BLACK }).success);
    assert_eq!(GoPlayer::WHITE, game.current_player);
    assert!(!game.place_piece(PlacePieceInput { row: 0, col: 0, player: GoPlayer::WHITE }).success);
    assert_eq!(GoPlayer::WHITE, game.current_player);
    assert!(game.place_piece(PlacePieceInput { row: 1, col: 1, player: GoPlayer::WHITE }).success);
    assert_eq!(GoPlayer::BLACK, game.current_player);
}

#[test]
fn a_move_outside_the_board_is_refused() {
    let mut game = GoGame::new(3);
    let output = game.place_piece(PlacePieceInput { row: 3, col: 0, player: GoPlayer::BLACK });
    let expected_output = PlacePieceOutput {
        success: false,
        board_state: Some(GoBoard::new(3).board_state),
        next_player: Some(GoPlayer::BLACK),
        error_msg: Some(String::from("The player BLACK tried to place a piece outside the board.")),
    };
    assert_eq!(expected_output, output);
    assert!(!game.place_piece(PlacePieceInput { row: 0, col: 7, player: GoPlayer::BLACK }).success);
    assert!(game.place_piece(PlacePieceInput { row: 2, col: 2, player: GoPlayer::BLACK }).success);
}

// A whole group without liberties is taken, and only the opponent's.
#[test]
fn capture_takes_the_whole_group() {
    let mut game = GoGame::new(3);
    // White builds (0,0)-(0,1); black surrounds it.
    assert!(game.place_piece(PlacePieceInput { row: 1, col: 0, player: GoPlayer::BLACK }).success);
    assert!(game.place_piece(PlacePieceInput { row: 0, col: 0, player: GoPlayer::WHITE }).success);
    assert!(game.place_piece(PlacePieceInput { row: 1, col: 1, player: GoPlayer::BLACK }).success);
    assert!(game.place_piece(PlacePieceInput { row: 0, col: 1, player: GoPlayer::WHITE }).success);
    let output = game.place_piece(PlacePieceInput { row: 0, col: 2, player: GoPlayer::BLACK });
    let mut expected = GoBoard::new(3).board_state;
    expected[1][0] = Some(GoPlayer::BLACK);
    expected[1][1] = Some(GoPlayer::BLACK);
    expected[0][2] = Some(GoPlayer::BLACK);
    assert_eq!(Some(expected), output.board_state);
    assert_eq!(Some(GoPlayer::WHITE), output.next_player);
}

// Stones of the opponent that lose their last liberty are taken before the mover's stone is
// looked at, so the mover's stone stays.
#[test]
fn capture_frees_the_stone_just_played() {
    let mut game = GoGame::new(3);
    assert!(game.place_piece(PlacePieceInput { row: 0, col: 1, player: GoPlayer::BLACK }).success);
    assert!(game.place_piece(PlacePieceInput { row: 1, col: 1, player: GoPlayer::WHITE }).success);
    assert!(game.place_piece(PlacePieceInput { row: 1, col: 0, player: GoPlayer::BLACK }).success);
    assert!(game.place_piece(PlacePieceInput { row: 0, col: 2, player: GoPlayer::WHITE }).success);
    assert!(game.place_piece(PlacePieceInput { row: 2, col: 2, player: GoPlayer::BLACK }).success);
    let output = game.place_piece(PlacePieceInput { row: 0, col: 0, player: GoPlayer::WHITE });
    assert!(output.success);
    let mut expected = GoBoard::new(3).board_state;
    expected[0][0] = Some(GoPlayer::WHITE);
    expected[0][2] = Some(GoPlayer::WHITE);
    expected[1][1] = Some(GoPlayer::WHITE);
    expected[1][0] = Some(GoPlayer::BLACK);
    expected[2][2] = Some(GoPlayer::BLACK);
    assert_eq!(Some(expected), output.board_state);
}

// A move that leaves the mover's own group without liberties is neither refused nor captured.
#[test]
fn own_group_without_liberties_stays() {
    let mut game = GoGame::new(3);
    assert!(game.place_piece(PlacePieceInput { row: 0, col: 1, player: GoPlayer::BLACK }).success);
    assert!(game.place_piece(PlacePieceInput { row: 2, col: 2, player: GoPlayer::WHITE }).success);
    assert!(game.place_piece(PlacePieceInput { row: 1, col: 0, player: GoPlayer::BLACK }).success);
    let output = game.place_piece(PlacePieceInput { row: 0, col: 0, player: GoPlayer::WHITE });
    assert!(output.success);
    assert_eq!(Some(GoPlayer::WHITE), game.board.board_state[0][0]);
    assert_eq!(Some(GoPlayer::BLACK), game.board.board_state[0][1]);
    assert_eq!(Some(GoPlayer::BLACK), game.board.board_state[1][0]);
}

#[test]
fn ko_rule_check_compares_board_and_cell() {
    let game = GoGame::new(2);
    let snapshot = Snapshot { state: GoBoard::new(2).board_state, chosen_move: (1, 0) };
    assert!(game.has_violated_ko_rule(Some(&snapshot), 1, 0));
    assert!(!game.has_violated_ko_rule(Some(&snapshot), 0, 1));
    assert!(!game.has_violated_ko_rule(None, 1, 0));
    let other = Snapshot { state: GoBoard::new(3).board_state, chosen_move: (1, 0) };
    assert!(!game.has_violated_ko_rule(Some(&other), 1, 0));
}

#[test]
fn error_messages() {
    assert_eq!(
        "The player BLACK tried to move when it is WHITE's turn.",
        MoveError::WrongTurn { attempted: GoPlayer::BLACK, expected: GoPlayer::WHITE }.message()
    );
    assert_eq!(
        "The player BLACK tried to place a piece on a square occupied by WHITE.",
        MoveError::OccupiedCell { attempted: GoPlayer::BLACK, occupant: GoPlayer::WHITE }.message()
    );
    assert_eq!(
        "The player BLACK has violated the Ko rule.",
        MoveError::KoViolation { attempted: GoPlayer::BLACK }.message()
    );
    assert_eq!(
        "The player WHITE tried to place a piece outside the board.",
        MoveError::InvalidCoordinate { attempted: GoPlayer::WHITE }.message()
    );
}

#[test]
fn new_game_starts_empty_with_black() {
    let game = GoGame::new(5);
    assert_eq!(GoPlayer::BLACK, game.current_player);
    assert_eq!(GoBoard::new(5), game.board);
    assert_eq!(vec![None, None], game.two_previous_states);
}

#[test]
fn snapshot_clone_is_equal_and_independent() {
    let mut board = GoBoard::new(2);
    board.place(0, 1, &GoPlayer::WHITE);
    let snapshot = Snapshot { state: board.board_state.clone(), chosen_move: (0, 1) };
    let mut copy = snapshot.clone();
    assert_eq!(snapshot, copy);
    copy.state[0][1] = None;
    assert_eq!(Some(GoPlayer::WHITE), snapshot.state[0][1]);
}

#[test]
fn game_clone_plays_on_its_own() {
    let mut game = GoGame::new(3);
    assert!(game.place_piece(PlacePieceInput { row: 1, col: 1, player: GoPlayer::BLACK }).success);
    let mut other = game.clone();
    assert!(other.place_piece(PlacePieceInput { row: 0, col: 0, player: GoPlayer::WHITE }).success);
    assert_eq!(None, game.board.board_state[0][0]);
    assert_eq!(GoPlayer::WHITE, game.current_player);
    assert_eq!(GoPlayer::BLACK, other.current_player);
    assert_eq!(game.two_previous_states[0], Some(Snapshot { state: GoBoard::new(3).board_state, chosen_move: (1, 1) }));
}
