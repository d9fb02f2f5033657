use go_engine::domain::go_board::{GoBoard, GoPlayer};
use go_engine::domain::group_aggregator::Group;
use go_engine::domain::group_liberties_aggregator::{
    contains_group, group_liberties, has_point, same_points, GroupLibertiesAggregator, Liberties,
    LibertyError,
};

#[test]
fn test_liberties_white_groups() {
    let mut board = GoBoard::new(3);

    board.place(0, 0, &GoPlayer::WHITE);
    board.place(2, 2, &GoPlayer::WHITE);

    //|O| | |
    //| | | |
    //| | |O|

    let white_liberties_group_one =
        GroupLibertiesAggregator::get_group_liberties(&board, &Group::from([(0, 0)]));
    let white_liberties_group_two =
        GroupLibertiesAggregator::get_group_liberties(&board, &Group::from([(2, 2)]));

    assert_eq!(Ok(Liberties::from([(0, 1), (1, 0)])), white_liberties_group_one);
    assert_eq!(Ok(Liberties::from([(1, 2), (2, 1)])), white_liberties_group_two);
}

#[test]
fn test_liberties_black_group() {
    let mut board = GoBoard::new(3);

    board.place(0, 1, &GoPlayer::BLACK);

    board.place(1, 0, &GoPlayer::BLACK);
    board.place(1, 1, &GoPlayer::BLACK);
    board.place(1, 2, &GoPlayer::BLACK);

    board.place(2, 1, &GoPlayer::BLACK);

    //| |X| |
    //|X|X|X|
    //| |X| |

    let black_liberties = GroupLibertiesAggregator::get_group_liberties(
        &board,
        &Group::from([(0, 1), (1, 0), (1, 1), (1, 2), (2, 1)]),
    );

    assert_eq!(Ok(Liberties::from([(0, 0), (0, 2), (2, 0), (2, 2)])), black_liberties);
}

#[test]
fn test_liberties_black_and_white_groups() {
    let mut board = GoBoard::new(3);

    board.place(0, 1, &GoPlayer::BLACK);

    board.place(1, 0, &GoPlayer::BLACK);
    board.place(1, 1, &GoPlayer::BLACK);
    board.place(1, 2, &GoPlayer::BLACK);

    board.place(2, 1, &GoPlayer::BLACK);

    board.place(0, 0, &GoPlayer::WHITE);
    board.place(0, 2, &GoPlayer::WHITE);

    board.place(2, 0, &GoPlayer::WHITE);
    board.place(2, 2, &GoPlayer::WHITE);

    //|O|X|O|
    //|X|X|X|
    //|O|X|O|

    let black_liberties = GroupLibertiesAggregator::get_group_liberties(
        &board,
        &Group::from([(0, 1), (1, 0), (1, 1), (1, 2), (2, 1)]),
    );

    assert_eq!(Ok(Liberties::from([])), black_liberties);

    let white_liberties = GroupLibertiesAggregator::get_group_liberties(&board, &Group::from([(0, 0)]));

    assert_eq!(Ok(Liberties::from([])), white_liberties);

    let white_liberties = GroupLibertiesAggregator::get_group_liberties(&board, &Group::from([(0, 2)]));

    assert_eq!(Ok(Liberties::from([])), white_liberties);

    let white_liberties = GroupLibertiesAggregator::get_group_liberties(&board, &Group::from([(2, 0)]));

    assert_eq!(Ok(Liberties::from([])), white_liberties);

    let white_liberties = GroupLibertiesAggregator::get_group_liberties(&board, &Group::from([(2, 2)]));

    assert_eq!(Ok(Liberties::from([])), white_liberties);
}

#[test]
fn invalid_group_input_is_refused() {
    let board = GoBoard::new(3);

    assert_eq!(
        Err(LibertyError::InvalidGroup),
        GroupLibertiesAggregator::get_group_liberties(&board, &Group::from([(0, 0)]))
    );
}

#[test]
fn part_of_a_group_or_an_outside_cell_is_refused() {
    let mut board = GoBoard::new(3);
    board.place(0, 0, &GoPlayer::BLACK);
    board.place(0, 1, &GoPlayer::BLACK);
    assert_eq!(
        Err(LibertyError::InvalidGroup),
        GroupLibertiesAggregator::get_group_liberties(&board, &Group::from([(0, 0)]))
    );
    assert_eq!(
        Err(LibertyError::InvalidGroup),
        GroupLibertiesAggregator::get_group_liberties(&board, &Group::from([(0, 0), (0, 1), (7, 7)]))
    );
    assert_eq!(
        Err(LibertyError::InvalidGroup),
        GroupLibertiesAggregator::get_group_liberties(&board, &Group::new())
    );
}

#[test]
fn a_group_given_in_any_order_is_accepted() {
    let mut board = GoBoard::new(3);
    board.place(0, 0, &GoPlayer::BLACK);
    board.place(0, 1, &GoPlayer::BLACK);
    assert_eq!(
        Ok(Liberties::from([(0, 2), (1, 0), (1, 1)])),
        GroupLibertiesAggregator::get_group_liberties(&board, &Group::from([(0, 1), (0, 0), (0, 1)]))
    );
}

// Liberties are empty cells next to the group, never a cell that holds a stone of either colour.
#[test]
fn liberties_are_empty_neighbours_only() {
    let mut board = GoBoard::new(4);
    board.place(1, 1, &GoPlayer::BLACK);
    board.place(1, 2, &GoPlayer::BLACK);
    board.place(0, 1, &GoPlayer::WHITE);
    board.place(2, 2, &GoPlayer::WHITE);
    let libs = GroupLibertiesAggregator::get_group_liberties(&board, &Group::from([(1, 1), (1, 2)]))
        .unwrap();
    assert_eq!(Liberties::from([(0, 2), (1, 0), (1, 3), (2, 1)]), libs);
    for (r, c) in libs {
        assert_eq!(None, board.board_state[r as usize][c as usize]);
    }
}

#[test]
fn group_liberties_of_a_corner_stone() {
    let mut board = GoBoard::new(19);
    board.place(18, 18, &GoPlayer::WHITE);
    assert_eq!(Liberties::from([(17, 18), (18, 17)]), group_liberties(&board, &Group::from([(18, 18)])));
}

#[test]
fn point_lists_compare_as_sets() {
    let a = Group::from([(0, 0), (1, 2)]);
    let b = Group::from([(1, 2), (0, 0), (1, 2)]);
    let c = Group::from([(1, 2)]);
    assert!(has_point(&a, (1, 2)));
    assert!(!has_point(&a, (2, 1)));
    assert!(same_points(&a, &b));
    assert!(!same_points(&a, &c));
    assert!(!same_points(&c, &a));
    assert!(contains_group(&vec![c.clone(), b.clone()], &a));
    assert!(!contains_group(&vec![c.clone()], &a));
}
