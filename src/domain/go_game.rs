use vstd::prelude::*;

use crate::domain::connectivity::{
    group_of, in_bounds, lemma_connected_ends, lemma_points_empty, lemma_same_group, liberties_of, points,
    pt, stone_of, Grid,
};
use crate::domain::go_board::{copy_state, grid, is_empty_grid, opponent, with_cell, GoBoard, GoBoardState, GoPlayer};
use crate::domain::group_aggregator::{is_group_list, is_listed_group, Group};
use crate::domain::group_liberties_aggregator::{lemma_found_is_group, Liberties};
use crate::domain::util::group_liberties_aggregator::{
    liberties_listed, pair_groups, GroupLibertiesAggregator,
};

verus! {

/// The board as it was before a move, with the move that was then made.
#[derive(Debug, PartialEq, Eq, Hash)]
pub struct Snapshot {
    pub state: GoBoardState,
    pub chosen_move: (u32, u32),
}

impl Clone for Snapshot {
    fn clone(&self) -> (copy: Self)
        ensures
            grid(copy.state) == grid(self.state),
            copy.chosen_move == self.chosen_move,
    {
        Snapshot { state: copy_state(&self.state), chosen_move: self.chosen_move }
    }
}

pub open spec fn snapshot_view(s: Option<Snapshot>) -> Option<(Grid, (u32, u32))> {
    match s {
        Some(x) => Some((grid(x.state), x.chosen_move)),
        None => None,
    }
}

/// A game seen as the player to move, the board, and the snapshots of the last two moves, most
/// recent first.
pub struct GameView {
    pub current_player: GoPlayer,
    pub board: Grid,
    pub history: Seq<Option<(Grid, (u32, u32))>>,
}

#[derive(Clone)]
pub struct GoGame {
    pub current_player: GoPlayer,
    pub board: GoBoard,
    pub two_previous_states: Vec<Option<Snapshot>>,
}

impl View for GoGame {
    type V = GameView;

    open spec fn view(&self) -> GameView {
        GameView {
            current_player: self.current_player,
            board: self.board@,
            history: self.two_previous_states@.map_values(|s: Option<Snapshot>| snapshot_view(s)),
        }
    }
}

impl GoGame {
    /// A well-formed board and room for exactly two snapshots.
    pub open spec fn wf(&self) -> bool {
        &&& self.board.wf()
        &&& self.two_previous_states@.len() == 2
    }

    /// A game on an empty board of `size` by `size`, black to move, no history.
    pub fn new(size: u32) -> (game: Self)
        ensures
            game.wf(),
            game@.current_player == GoPlayer::BLACK,
            game@.board.len() == size,
            is_empty_grid(game@.board),
            game@.history == seq![None::<(Grid, (u32, u32))>, None],
    {
        let mut two_previous_states: Vec<Option<Snapshot>> = Vec::new();
        two_previous_states.push(None);
        two_previous_states.push(None);
        let game = Self { current_player: GoPlayer::BLACK, board: GoBoard::new(size), two_previous_states };
        assert(game@.history =~= seq![None::<(Grid, (u32, u32))>, None]);
        game
    }
}

/// The stone on `p` is of `color` and its group has no liberty.
pub open spec fn is_captured(g: Grid, color: GoPlayer, p: (int, int)) -> bool {
    stone_of(g, color, p) && liberties_of(g, group_of(g, color, p)) == Set::<(int, int)>::empty()
}

/// The board once every group of `color` without a liberty is taken off.
pub open spec fn resolve_captures(g: Grid, color: GoPlayer) -> Grid {
    Seq::new(
        g.len(),
        |r: int| Seq::new(g[r].len(), |c: int| if is_captured(g, color, (r, c)) { None } else { g[r][c] }),
    )
}

/// The board after `player` puts a stone on the empty cell `row`, `col`: the stone stands, then
/// the opponent's groups left without a liberty are taken off.
pub open spec fn board_after_move(g: Grid, row: int, col: int, player: GoPlayer) -> Grid {
    resolve_captures(with_cell(g, row, col, Some(player)), opponent(player))
}

/// The cell `p` lies in a listed group, before the one at `upto`, whose liberties are empty.
pub open spec fn in_dead_group(v: Seq<(Group, Liberties)>, upto: int, p: (int, int)) -> bool {
    exists|j: int| 0 <= j < upto && (#[trigger] v[j]).1@.len() == 0 && points(v[j].0@).contains(p)
}

/// A stone is captured exactly when a listed group without liberties holds it.
proof fn lemma_dead_iff_captured(g: Grid, color: GoPlayer, v: Seq<(Group, Liberties)>, p: (int, int))
    requires
        is_group_list(g, color, pair_groups(v)),
        liberties_listed(g, v),
    ensures
        in_dead_group(v, v.len() as int, p) == is_captured(g, color, p),
{
    let gs = pair_groups(v);
    if in_dead_group(v, v.len() as int, p) {
        let j = choose|j: int| 0 <= j < v.len() && (#[trigger] v[j]).1@.len() == 0 && points(v[j].0@).contains(p);
        assert(gs[j] == v[j].0@);
        assert(is_listed_group(g, color, gs[j]));
        lemma_connected_ends(g, color, pt(gs[j][0]), p);
        lemma_same_group(g, color, pt(gs[j][0]), p);
        lemma_points_empty(v[j].1@);
    }
    if is_captured(g, color, p) {
        let j = choose|j: int| 0 <= j < gs.len() && points(#[trigger] gs[j]).contains(p);
        assert(gs[j] == v[j].0@);
        assert(is_listed_group(g, color, gs[j]));
        lemma_same_group(g, color, pt(gs[j][0]), p);
        if v[j].1@.len() > 0 {
            let x = v[j].1@[0];
            assert(points(v[j].1@).contains(pt(x)));
        }
        assert(in_dead_group(v, v.len() as int, p));
    }
}

/// Takes off the board every group of `color` that has no liberty.
pub fn remove_captured(board: &mut GoBoard, color: GoPlayer)
    requires
        old(board).wf(),
    ensures
        final(board).wf(),
        final(board)@ == resolve_captures(old(board)@, color),
{
    let ghost g = board@;
    let table = GroupLibertiesAggregator::get_group_liberties(board);
    let groups = table.get(&color).unwrap();
    let ghost v = groups@;
    proof {
        assert(v == table.entry(color)@);
    }
    for i in 0..groups.len()
        invariant
            v == groups@,
            is_group_list(g, color, pair_groups(v)),
            liberties_listed(g, v),
            board.wf(),
            board@.len() == g.len(),
            forall|a: int, b: int|
                in_bounds(g, (a, b)) ==> #[trigger] board@[a][b] == if in_dead_group(v, i as int, (a, b)) {
                    None
                } else {
                    g[a][b]
                },
    {
        if groups[i].1.len() == 0 {
            let members = &groups[i].0;
            proof {
                assert(pair_groups(v)[i as int] == members@);
                lemma_found_is_group(g, color, pair_groups(v), members@, i as int);
            }
            for k in 0..members.len()
                invariant
                    v == groups@,
                    members == &groups@[i as int].0,
                    v[i as int].1@.len() == 0,
                    forall|k: int| 0 <= k < members@.len() ==> in_bounds(g, pt(#[trigger] members@[k])),
                    board.wf(),
                    board@.len() == g.len(),
                    forall|a: int, b: int|
                        in_bounds(g, (a, b)) ==> #[trigger] board@[a][b] == if in_dead_group(v, i as int, (a, b))
                            || points(members@.subrange(0, k as int)).contains((a, b)) {
                            None
                        } else {
                            g[a][b]
                        },
            {
                let (r, c) = members[k];
                proof {
                    assert(in_bounds(g, pt(members@[k as int])));
                }
                board.remove(r, c);
                proof {
                    assert forall|a: int, b: int| in_bounds(g, (a, b)) implies #[trigger] board@[a][b] == if in_dead_group(
                        v,
                        i as int,
                        (a, b),
                    ) || points(members@.subrange(0, k + 1)).contains((a, b)) {
                        None
                    } else {
                        g[a][b]
                    } by {
                        let sub = members@.subrange(0, k as int);
                        let sub1 = members@.subrange(0, k + 1);
                        if points(sub).contains((a, b)) {
                            let j = choose|j: int| 0 <= j < sub.len() && pt(#[trigger] sub[j]) == (a, b);
                            assert(sub1[j] == sub[j]);
                        }
                        if points(sub1).contains((a, b)) && (a, b) != (r as int, c as int) {
                            let j = choose|j: int| 0 <= j < sub1.len() && pt(#[trigger] sub1[j]) == (a, b);
                            assert(sub[j] == sub1[j]);
                        }
                        if (a, b) == (r as int, c as int) {
                            assert(sub1[k as int] == (r, c));
                        }
                    }
                }
            }
            proof {
                assert(members@.subrange(0, members@.len() as int) =~= members@);
                assert forall|a: int, b: int| in_bounds(g, (a, b)) implies #[trigger] board@[a][b] == if in_dead_group(
                    v,
                    i + 1,
                    (a, b),
                ) {
                    None
                } else {
                    g[a][b]
                } by {
                    if in_dead_group(v, i + 1, (a, b)) && !in_dead_group(v, i as int, (a, b)) {
                        let j = choose|j: int| 0 <= j < i + 1 && (#[trigger] v[j]).1@.len() == 0 && points(v[j].0@).contains((a, b));
                        assert(j == i);
                    }
                    if points(members@).contains((a, b)) {
                        assert(v[i as int].1@.len() == 0 && points(v[i as int].0@).contains((a, b)));
                    }
                }
            }
        } else {
            proof {
                assert forall|a: int, b: int| in_bounds(g, (a, b)) implies #[trigger] board@[a][b] == if in_dead_group(
                    v,
                    i + 1,
                    (a, b),
                ) {
                    None
                } else {
                    g[a][b]
                } by {
                    if in_dead_group(v, i + 1, (a, b)) {
                        let j = choose|j: int| 0 <= j < i + 1 && (#[trigger] v[j]).1@.len() == 0 && points(v[j].0@).contains((a, b));
                        assert(j != i);
                    }
                }
            }
        }
    }
    proof {
        let res = resolve_captures(g, color);
        assert forall|a: int| 0 <= a < g.len() implies #[trigger] board@[a] =~= res[a] by {
            assert(g[a].len() == g.len());
            assert(board@[a].len() == g.len());
            assert forall|b: int| 0 <= b < g.len() implies board@[a][b] == res[a][b] by {
                assert(in_bounds(g, (a, b)));
                lemma_dead_iff_captured(g, color, v, (a, b));
            }
        }
        assert(board@ =~= res);
    }
}

} // verus!
