use vstd::prelude::*;

use crate::domain::connectivity::{in_bounds, liberties_of, points, pt, sorted_points, Grid};
use crate::domain::go_board::{opponent, GoBoard, GoPlayer};
use crate::domain::group_aggregator::{is_group_list, BlackGroups, Group, GroupAggregator, WhiteGroups};
use crate::domain::group_liberties_aggregator::{group_liberties, lemma_found_is_group, Liberties};

verus! {

/// The groups of each colour, each listed with its liberties.
#[derive(Debug, Clone, PartialEq)]
pub struct PlayerGroupLiberties {
    pub black: Vec<(Group, Liberties)>,
    pub white: Vec<(Group, Liberties)>,
}

/// The groups of a list of pairs.
pub open spec fn pair_groups(v: Seq<(Group, Liberties)>) -> Seq<Seq<(u32, u32)>> {
    v.map_values(|e: (Group, Liberties)| e.0@)
}

/// Each group is listed with exactly its liberties, in row-major order.
pub open spec fn liberties_listed(g: Grid, v: Seq<(Group, Liberties)>) -> bool {
    forall|i: int|
        0 <= i < v.len() ==> sorted_points((#[trigger] v[i]).1@) && points(v[i].1@) == liberties_of(
            g,
            points(v[i].0@),
        )
}

impl PlayerGroupLiberties {
    /// The list of `player`.
    pub open spec fn entry(&self, player: GoPlayer) -> Vec<(Group, Liberties)> {
        match player {
            GoPlayer::BLACK => self.black,
            GoPlayer::WHITE => self.white,
        }
    }

    /// Every player has a list, possibly empty.
    pub fn contains_key(&self, player: &GoPlayer) -> (present: bool)
        ensures
            present,
    {
        true
    }

    /// The list of `player`; there is always one.
    pub fn get(&self, player: &GoPlayer) -> (list: Option<&Vec<(Group, Liberties)>>)
        ensures
            list == Some(&self.entry(*player)),
    {
        match player {
            GoPlayer::BLACK => Some(&self.black),
            GoPlayer::WHITE => Some(&self.white),
        }
    }
}

pub struct GroupLibertiesAggregator;

impl GroupLibertiesAggregator {
    /// Every group of each colour, with its liberties.
    pub fn get_group_liberties(board: &GoBoard) -> (liberties: PlayerGroupLiberties)
        requires
            board.wf(),
        ensures
            is_group_list(board@, GoPlayer::BLACK, pair_groups(liberties.black@)),
            liberties_listed(board@, liberties.black@),
            is_group_list(board@, GoPlayer::WHITE, pair_groups(liberties.white@)),
            liberties_listed(board@, liberties.white@),
    {
        let mut liberties = PlayerGroupLiberties { black: Vec::new(), white: Vec::new() };
        let groups = Self::get_piece_groups(board);
        proof {
            lemma_group_list_in_bounds(board@, GoPlayer::BLACK, groups.0@);
            lemma_group_list_in_bounds(board@, GoPlayer::WHITE, groups.1@);
        }
        Self::insert_liberties(groups.0, &GoPlayer::BLACK, board, &mut liberties);
        Self::insert_liberties(groups.1, &GoPlayer::WHITE, board, &mut liberties);
        proof {
            assert(liberties.black@.subrange(0, liberties.black@.len() as int) =~= liberties.black@);
            assert(liberties.white@.subrange(0, liberties.white@.len() as int) =~= liberties.white@);
            lemma_pairs_listed(board@, liberties.black@, groups.0@.map_values(|v: Group| v@));
            lemma_pairs_listed(board@, liberties.white@, groups.1@.map_values(|v: Group| v@));
        }
        liberties
    }

    /// The groups of black stones and the groups of white stones.
    pub fn get_piece_groups(board: &GoBoard) -> (groups: (BlackGroups, WhiteGroups))
        requires
            board.wf(),
        ensures
            is_group_list(board@, GoPlayer::BLACK, groups.0@.map_values(|v: Group| v@)),
            is_group_list(board@, GoPlayer::WHITE, groups.1@.map_values(|v: Group| v@)),
    {
        GroupAggregator::get_piece_groups(board)
    }

    /// Appends each group of `groups`, in order and with exactly its liberties, to the list of
    /// `player`; the entries already there and the other player's list stay as they were.
    fn insert_liberties(
        groups: Vec<Group>,
        player: &GoPlayer,
        board: &GoBoard,
        liberties: &mut PlayerGroupLiberties,
    )
        requires
            board.wf(),
            forall|i: int, k: int|
                0 <= i < groups@.len() && 0 <= k < groups@[i]@.len() ==> in_bounds(
                    board@,
                    pt(#[trigger] groups@[i]@[k]),
                ),
        ensures
            final(liberties).entry(*player)@.len() == old(liberties).entry(*player)@.len() + groups@.len(),
            final(liberties).entry(*player)@.subrange(0, old(liberties).entry(*player)@.len() as int) == old(
                liberties,
            ).entry(*player)@,
            pairs_with_liberties(
                board@,
                final(liberties).entry(*player)@.subrange(
                    old(liberties).entry(*player)@.len() as int,
                    final(liberties).entry(*player)@.len() as int,
                ),
                groups@.map_values(|v: Group| v@),
            ),
            final(liberties).entry(opponent(*player)) == old(liberties).entry(opponent(*player)),
    {
        let ghost gs = groups@.map_values(|v: Group| v@);
        let ghost start = liberties.entry(*player)@;
        let ghost other = liberties.entry(opponent(*player));
        proof {
            assert(liberties.entry(*player)@.subrange(start.len() as int, start.len() as int) =~= Seq::empty());
            assert(gs.subrange(0, 0) =~= Seq::empty());
        }
        for k in 0..groups.len()
            invariant
                board.wf(),
                gs == groups@.map_values(|v: Group| v@),
                forall|i: int, j: int|
                    0 <= i < groups@.len() && 0 <= j < groups@[i]@.len() ==> in_bounds(
                        board@,
                        pt(#[trigger] groups@[i]@[j]),
                    ),
                liberties.entry(*player)@.len() == start.len() + k,
                liberties.entry(*player)@.subrange(0, start.len() as int) == start,
                pairs_with_liberties(
                    board@,
                    liberties.entry(*player)@.subrange(start.len() as int, start.len() + k),
                    gs.subrange(0, k as int),
                ),
                liberties.entry(opponent(*player)) == other,
        {
            let group = copy_points(&groups[k]);
            proof {
                assert(gs[k as int] == groups@[k as int]@);
                assert forall|j: int| 0 <= j < group@.len() implies in_bounds(board@, pt(#[trigger] group@[j])) by {
                    assert(group@[j] == groups@[k as int]@[j]);
                }
            }
            let libs = group_liberties(board, &group);
            let ghost before = liberties.entry(*player)@;
            match player {
                GoPlayer::BLACK => liberties.black.push((group, libs)),
                GoPlayer::WHITE => liberties.white.push((group, libs)),
            }
            proof {
                let after = liberties.entry(*player)@;
                assert(after == before.push((group, libs)));
                assert(after.subrange(0, start.len() as int) =~= before.subrange(0, start.len() as int));
                let tail0 = before.subrange(start.len() as int, start.len() + k);
                let tail1 = after.subrange(start.len() as int, start.len() + k + 1);
                assert(tail1 =~= tail0.push((group, libs)));
                assert(gs.subrange(0, k + 1) =~= gs.subrange(0, k as int).push(gs[k as int]));
                assert forall|i: int| 0 <= i < tail1.len() implies (#[trigger] tail1[i]).0@ == gs.subrange(
                    0,
                    k + 1,
                )[i] && sorted_points(tail1[i].1@) && points(tail1[i].1@) == liberties_of(
                    board@,
                    points(gs.subrange(0, k + 1)[i]),
                ) by {
                    if i < k {
                        assert(tail1[i] == tail0[i]);
                        assert(gs.subrange(0, k + 1)[i] == gs.subrange(0, k as int)[i]);
                    }
                }
            }
        }
        proof {
            assert(gs.subrange(0, gs.len() as int) =~= gs);
        }
    }
}

/// Each entry pairs the group of the same rank in `groups` with exactly its liberties, in
/// row-major order.
pub open spec fn pairs_with_liberties(g: Grid, v: Seq<(Group, Liberties)>, groups: Seq<Seq<(u32, u32)>>) -> bool {
    &&& v.len() == groups.len()
    &&& forall|i: int|
        0 <= i < v.len() ==> (#[trigger] v[i]).0@ == groups[i] && sorted_points(v[i].1@) && points(v[i].1@)
            == liberties_of(g, points(groups[i]))
}

proof fn lemma_pairs_listed(g: Grid, v: Seq<(Group, Liberties)>, groups: Seq<Seq<(u32, u32)>>)
    requires
        pairs_with_liberties(g, v, groups),
    ensures
        pair_groups(v) == groups,
        liberties_listed(g, v),
{
    assert(pair_groups(v) =~= groups);
}

/// Every cell of a complete list of groups lies on the board.
proof fn lemma_group_list_in_bounds(g: Grid, color: GoPlayer, groups: Seq<Group>)
    requires
        is_group_list(g, color, groups.map_values(|v: Group| v@)),
    ensures
        forall|i: int, k: int|
            0 <= i < groups.len() && 0 <= k < groups[i]@.len() ==> in_bounds(g, pt(#[trigger] groups[i]@[k])),
{
    let gs = groups.map_values(|v: Group| v@);
    assert forall|i: int, k: int| 0 <= i < groups.len() && 0 <= k < groups[i]@.len() implies in_bounds(
        g,
        pt(#[trigger] groups[i]@[k]),
    ) by {
        assert(gs[i] == groups[i]@);
        lemma_found_is_group(g, color, gs, groups[i]@, i);
    }
}

/// A copy of a list of cells.
fn copy_points(v: &Group) -> (copy: Group)
    ensures
        copy@ == v@,
{
    let mut copy: Group = Vec::new();
    for k in 0..v.len()
        invariant
            copy@ == v@.subrange(0, k as int),
    {
        copy.push(v[k]);
        proof {
            assert(copy@ =~= v@.subrange(0, k + 1));
        }
    }
    proof {
        assert(v@.subrange(0, v@.len() as int) =~= v@);
    }
    copy
}

} // verus!
