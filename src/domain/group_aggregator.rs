use vstd::prelude::*;

use crate::domain::connectivity::{
    adjacent, group_of, in_bounds, is_closed, is_walk_within, lemma_closed_holds_group,
    lemma_connected_ends, lemma_connected_refl, lemma_connected_step, lemma_group_closed,
    lemma_group_walk, lemma_points_empty, lemma_points_push, lemma_same_group, lex_lt, points, pt,
    sorted_points, stone_of, Grid,
};
use crate::domain::go_board::{GoBoard, GoPlayer};

verus! {

/// The coordinates of one group, in row-major order.
pub type Group = Vec<(u32, u32)>;

pub type BlackGroups = Vec<Group>;

pub type WhiteGroups = Vec<Group>;

/// For each cell, the first stone of the group that the cell was found in.
pub type Labels = Vec<Vec<Option<(u32, u32)>>>;

pub type LabelGrid = Seq<Seq<Option<(u32, u32)>>>;

pub open spec fn label_grid(l: Labels) -> LabelGrid {
    l@.map_values(|row: Vec<Option<(u32, u32)>>| row@)
}

pub open spec fn has_shape(l: LabelGrid, n: int) -> bool {
    l.len() == n && forall|r: int| 0 <= r < n ==> #[trigger] l[r].len() == n
}

/// The cells that carry a label.
pub open spec fn labelled(g: Grid, l: LabelGrid) -> Set<(int, int)> {
    Set::new(|p: (int, int)| in_bounds(g, p) && l[p.0][p.1] is Some)
}

/// The cells labelled with `seed`.
pub open spec fn labelled_with(g: Grid, l: LabelGrid, seed: (u32, u32)) -> Set<(int, int)> {
    Set::new(|p: (int, int)| in_bounds(g, p) && l[p.0][p.1] == Some(seed))
}

pub open spec fn with_label(l: LabelGrid, r: int, c: int, seed: (u32, u32)) -> LabelGrid {
    l.update(r, l[r].update(c, Some(seed)))
}

pub open spec fn count_none_row<T>(row: Seq<Option<T>>) -> nat
    decreases row.len(),
{
    if row.len() == 0 {
        0
    } else {
        count_none_row(row.drop_last()) + if row.last() is None {
            1nat
        } else {
            0nat
        }
    }
}

/// The number of cells that carry no label.
pub open spec fn count_none<T>(rows: Seq<Seq<Option<T>>>) -> nat
    decreases rows.len(),
{
    if rows.len() == 0 {
        0
    } else {
        count_none(rows.drop_last()) + count_none_row(rows.last())
    }
}

proof fn lemma_count_none_row_update<T>(row: Seq<Option<T>>, c: int, v: T)
    requires
        0 <= c < row.len(),
        row[c] is None,
    ensures
        count_none_row(row.update(c, Some(v))) + 1 == count_none_row(row),
    decreases row.len(),
{
    let up = row.update(c, Some(v));
    if c == row.len() - 1 {
        assert(up.drop_last() =~= row.drop_last());
    } else {
        lemma_count_none_row_update(row.drop_last(), c, v);
        assert(up.drop_last() =~= row.drop_last().update(c, Some(v)));
    }
}

proof fn lemma_count_none_update<T>(rows: Seq<Seq<Option<T>>>, r: int, c: int, v: T)
    requires
        0 <= r < rows.len(),
        0 <= c < rows[r].len(),
        rows[r][c] is None,
    ensures
        count_none(rows.update(r, rows[r].update(c, Some(v)))) + 1 == count_none(rows),
    decreases rows.len(),
{
    let up = rows.update(r, rows[r].update(c, Some(v)));
    if r == rows.len() - 1 {
        assert(up.drop_last() =~= rows.drop_last());
        lemma_count_none_row_update(rows[r], c, v);
    } else {
        lemma_count_none_update(rows.drop_last(), r, c, v);
        assert(up.drop_last() =~= rows.drop_last().update(r, rows[r].update(c, Some(v))));
    }
}

/// A list of the groups of `color`, each in row-major order: every group listed is the group of
/// its first stone, no two overlap, and every stone of `color` is in one of them.
pub open spec fn is_group_list(g: Grid, color: GoPlayer, groups: Seq<Seq<(u32, u32)>>) -> bool {
    &&& forall|i: int| 0 <= i < groups.len() ==> #[trigger] is_listed_group(g, color, groups[i])
    &&& forall|i: int, j: int|
        0 <= i < groups.len() && 0 <= j < groups.len() && i != j ==> points(#[trigger] groups[i]).disjoint(
            points(#[trigger] groups[j]),
        )
    &&& forall|p: (int, int)|
        stone_of(g, color, p) ==> exists|i: int| 0 <= i < groups.len() && points(#[trigger] groups[i]).contains(p)
}

/// A non-empty list in row-major order that holds exactly the group of its first stone.
pub open spec fn is_listed_group(g: Grid, color: GoPlayer, v: Seq<(u32, u32)>) -> bool {
    &&& v.len() > 0
    &&& sorted_points(v)
    &&& points(v) == group_of(g, color, pt(v[0]))
}

/// The groups of a colour partition that colour's stones: every stone of the colour lies in
/// exactly one group, every member of a group is a stone of the colour, any two members of a
/// group are joined by a walk inside the group, and no adjacent stone of the colour lies outside.
pub proof fn lemma_groups_partition(g: Grid, color: GoPlayer, groups: Seq<Seq<(u32, u32)>>)
    requires
        is_group_list(g, color, groups),
    ensures
        forall|p: (int, int)|
            stone_of(g, color, p) ==> exists|i: int| 0 <= i < groups.len() && points(#[trigger] groups[i]).contains(p),
        forall|p: (int, int), i: int, j: int|
            0 <= i < groups.len() && 0 <= j < groups.len() && #[trigger] points(groups[i]).contains(p)
                && #[trigger] points(groups[j]).contains(p) ==> i == j,
        forall|p: (int, int), i: int|
            0 <= i < groups.len() && #[trigger] points(groups[i]).contains(p) ==> stone_of(g, color, p),
        forall|p: (int, int), q: (int, int), i: int|
            0 <= i < groups.len() && #[trigger] points(groups[i]).contains(p) && #[trigger] points(groups[i]).contains(q)
                ==> exists|path: Seq<(int, int)>| #[trigger] is_walk_within(points(groups[i]), path, p, q),
        forall|p: (int, int), q: (int, int), i: int|
            0 <= i < groups.len() && #[trigger] points(groups[i]).contains(p) && #[trigger] adjacent(p, q)
                && stone_of(g, color, q) ==> points(groups[i]).contains(q),
{
    assert forall|p: (int, int), i: int, j: int|
        0 <= i < groups.len() && 0 <= j < groups.len() && #[trigger] points(groups[i]).contains(p)
            && #[trigger] points(groups[j]).contains(p) implies i == j by {
        if i != j {
            assert(!points(groups[j]).contains(p));
        }
    }
    assert forall|p: (int, int), i: int|
        0 <= i < groups.len() && #[trigger] points(groups[i]).contains(p) implies stone_of(g, color, p) by {
        assert(is_listed_group(g, color, groups[i]));
        lemma_connected_ends(g, color, pt(groups[i][0]), p);
    }
    assert forall|p: (int, int), q: (int, int), i: int|
        0 <= i < groups.len() && #[trigger] points(groups[i]).contains(p) && #[trigger] points(groups[i]).contains(q)
        implies exists|path: Seq<(int, int)>| #[trigger] is_walk_within(points(groups[i]), path, p, q) by {
        assert(is_listed_group(g, color, groups[i]));
        lemma_group_walk(g, color, pt(groups[i][0]), p, q);
    }
    assert forall|p: (int, int), q: (int, int), i: int|
        0 <= i < groups.len() && #[trigger] points(groups[i]).contains(p) && #[trigger] adjacent(p, q)
            && stone_of(g, color, q) implies points(groups[i]).contains(q) by {
        assert(is_listed_group(g, color, groups[i]));
        lemma_group_closed(g, color, pt(groups[i][0]));
    }
}

pub struct GroupAggregator;

impl GroupAggregator {
    /// The groups of black stones and the groups of white stones; the board is only read.
    pub fn get_piece_groups(board: &GoBoard) -> (groups: (BlackGroups, WhiteGroups))
        requires
            board.wf(),
        ensures
            is_group_list(board@, GoPlayer::BLACK, groups.0@.map_values(|v: Group| v@)),
            is_group_list(board@, GoPlayer::WHITE, groups.1@.map_values(|v: Group| v@)),
    {
        let white_groups = Self::get_groups(board, &GoPlayer::WHITE);
        let black_groups = Self::get_groups(board, &GoPlayer::BLACK);
        (black_groups, white_groups)
    }

    /// The groups of `player`, found by a row-major scan.
    pub fn get_groups(board: &GoBoard, player: &GoPlayer) -> (groups: Vec<Group>)
        requires
            board.wf(),
        ensures
            is_group_list(board@, *player, groups@.map_values(|v: Group| v@)),
    {
        let ghost g = board@;
        let color = *player;
        let n = board.board_state.len();
        let mut labels = new_labels(n);
        let mut groups: Vec<Group> = Vec::new();
        let ghost mut seeds: Seq<(u32, u32)> = Seq::empty();
        for r in 0..n
            invariant
                g == board@,
                board.wf(),
                n == g.len(),
                has_shape(label_grid(labels), n as int),
                groups@.len() == seeds.len(),
                Self::scan_state(g, color, label_grid(labels), groups@.map_values(|v: Group| v@), seeds),
                forall|a: int, b: int|
                    0 <= a < r && 0 <= b < n && #[trigger] stone_of(g, color, (a, b))
                        ==> labelled(g, label_grid(labels)).contains((a, b)),
        {
            for c in 0..n
                invariant
                    g == board@,
                    board.wf(),
                    n == g.len(),
                    0 <= r < n,
                    has_shape(label_grid(labels), n as int),
                    groups@.len() == seeds.len(),
                    Self::scan_state(g, color, label_grid(labels), groups@.map_values(|v: Group| v@), seeds),
                    forall|a: int, b: int|
                        ((0 <= a < r && 0 <= b < n) || (a == r && 0 <= b < c)) && #[trigger] stone_of(g, color, (a, b))
                            ==> labelled(g, label_grid(labels)).contains((a, b)),
            {
                assert(g[r as int].len() == n);
                assert(label_grid(labels)[r as int].len() == n);
                let here = board.board_state[r][c];
                let free = labels[r][c].is_none();
                if free && here == Some(color) {
                    let seed = (r as u32, c as u32);
                    let ghost l0 = label_grid(labels);
                    let ghost gs0 = groups@.map_values(|v: Group| v@);
                    proof {
                        Self::lemma_scan_ready(g, color, l0, gs0, seeds, seed);
                    }
                    Self::get_group(board, color, &mut labels, seed);
                    let ghost l1 = label_grid(labels);
                    let group = collect_labelled(board, &labels, seed);
                    groups.push(group);
                    proof {
                        let gs1 = groups@.map_values(|v: Group| v@);
                        assert(gs1 =~= gs0.push(group@));
                        Self::lemma_scan_step(g, color, l0, l1, gs0, seeds, seed, group@);
                        seeds = seeds.push(seed);
                    }
                }
                proof {
                    let l = label_grid(labels);
                    assert forall|a: int, b: int|
                        ((0 <= a < r && 0 <= b < n) || (a == r && 0 <= b < c + 1)) && #[trigger] stone_of(g, color, (a, b))
                        implies labelled(g, l).contains((a, b)) by {
                        if a == r && b == c {
                            assert(l[a][b] is Some);
                        }
                    }
                }
            }
        }
        proof {
            let gs = groups@.map_values(|v: Group| v@);
            let l = label_grid(labels);
            assert forall|p: (int, int)| stone_of(g, color, p) implies exists|i: int|
                0 <= i < gs.len() && points(#[trigger] gs[i]).contains(p) by {
                assert(stone_of(g, color, (p.0, p.1)));
                assert(labelled(g, l).contains(p));
                let i = choose|i: int| 0 <= i < seeds.len() && l[p.0][p.1] == Some(#[trigger] seeds[i]);
                assert(labelled_with(g, l, seeds[i]).contains(p));
                assert(points(gs[i]) == labelled_with(g, l, seeds[i]));
            }
        }
        groups
    }

    /// What holds between the labels, the groups found so far and their first stones.
    pub open spec fn scan_state(
        g: Grid,
        color: GoPlayer,
        l: LabelGrid,
        groups: Seq<Seq<(u32, u32)>>,
        seeds: Seq<(u32, u32)>,
    ) -> bool {
        &&& groups.len() == seeds.len()
        &&& forall|i: int| 0 <= i < groups.len() ==> #[trigger] is_listed_group(g, color, groups[i])
        &&& forall|i: int|
            0 <= i < groups.len() ==> points(#[trigger] groups[i]) == labelled_with(g, l, seeds[i])
                && labelled_with(g, l, seeds[i]) == group_of(g, color, pt(seeds[i]))
                && labelled_with(g, l, seeds[i]).contains(pt(seeds[i]))
        &&& forall|i: int, j: int|
            0 <= i < groups.len() && 0 <= j < groups.len() && i != j ==> points(#[trigger] groups[i]).disjoint(
                points(#[trigger] groups[j]),
            )
        &&& forall|a: int, b: int|
            in_bounds(g, (a, b)) && #[trigger] l[a][b] is Some ==> exists|i: int|
                0 <= i < seeds.len() && l[a][b] == Some(#[trigger] seeds[i])
    }

    /// Before a new group is filled from an unlabelled stone, the labels are closed and none
    /// carries that stone.
    proof fn lemma_scan_ready(
        g: Grid,
        color: GoPlayer,
        l: LabelGrid,
        groups: Seq<Seq<(u32, u32)>>,
        seeds: Seq<(u32, u32)>,
        seed: (u32, u32),
    )
        requires
            has_shape(l, g.len() as int),
            Self::scan_state(g, color, l, groups, seeds),
            stone_of(g, color, pt(seed)),
            l[seed.0 as int][seed.1 as int] is None,
        ensures
            is_closed(g, color, labelled(g, l)),
            forall|a: int, b: int| in_bounds(g, (a, b)) ==> #[trigger] l[a][b] != Some(seed),
    {
        assert forall|p: (int, int), q: (int, int)|
            labelled(g, l).contains(p) && #[trigger] adjacent(p, q) && stone_of(g, color, q)
            implies #[trigger] labelled(g, l).contains(q) by {
            assert(l[p.0][p.1] is Some);
            let i = choose|i: int| 0 <= i < seeds.len() && l[p.0][p.1] == Some(#[trigger] seeds[i]);
            assert(is_listed_group(g, color, groups[i]));
            assert(labelled_with(g, l, seeds[i]).contains(p));
            lemma_connected_step(g, color, pt(seeds[i]), p, q);
            assert(group_of(g, color, pt(seeds[i])).contains(q));
        }
        assert forall|a: int, b: int| in_bounds(g, (a, b)) implies #[trigger] l[a][b] != Some(seed) by {
            if l[a][b] == Some(seed) {
                let i = choose|i: int| 0 <= i < seeds.len() && l[a][b] == Some(#[trigger] seeds[i]);
                assert(is_listed_group(g, color, groups[i]));
                assert(labelled_with(g, l, seeds[i]).contains(pt(seeds[i])));
            }
        }
    }

    /// Filling a new group and listing it keeps the scan state.
    proof fn lemma_scan_step(
        g: Grid,
        color: GoPlayer,
        l0: LabelGrid,
        l1: LabelGrid,
        groups: Seq<Seq<(u32, u32)>>,
        seeds: Seq<(u32, u32)>,
        seed: (u32, u32),
        group: Seq<(u32, u32)>,
    )
        requires
            has_shape(l0, g.len() as int),
            has_shape(l1, g.len() as int),
            Self::scan_state(g, color, l0, groups, seeds),
            stone_of(g, color, pt(seed)),
            l0[seed.0 as int][seed.1 as int] is None,
            forall|a: int, b: int|
                in_bounds(g, (a, b)) ==> #[trigger] l1[a][b] == if group_of(g, color, pt(seed)).contains((a, b)) {
                    Some(seed)
                } else {
                    l0[a][b]
                },
            forall|a: int, b: int| group_of(g, color, pt(seed)).contains((a, b)) ==> #[trigger] l0[a][b] is None,
            sorted_points(group),
            points(group) == labelled_with(g, l1, seed),
        ensures
            Self::scan_state(g, color, l1, groups.push(group), seeds.push(seed)),
            l1[seed.0 as int][seed.1 as int] is Some,
    {
        let gs = groups.push(group);
        let ss = seeds.push(seed);
        let grp = group_of(g, color, pt(seed));
        lemma_connected_refl(g, color, pt(seed));
        assert(l1[seed.0 as int][seed.1 as int] == Some(seed));
        assert(labelled_with(g, l1, seed) =~= grp) by {
            assert forall|p: (int, int)| grp.contains(p) implies in_bounds(g, p) by {
                lemma_connected_ends(g, color, pt(seed), p);
            }
            assert forall|p: (int, int)| labelled_with(g, l1, seed).contains(p) implies grp.contains(p) by {
                if !grp.contains(p) {
                    assert(l1[p.0][p.1] == l0[p.0][p.1]);
                    Self::lemma_scan_ready(g, color, l0, groups, seeds, seed);
                    assert(l0[p.0][p.1] != Some(seed));
                }
            }
        }
        // the old groups keep their labels
        assert forall|i: int| 0 <= i < groups.len() implies labelled_with(g, l1, seeds[i]) == labelled_with(
            g,
            l0,
            seeds[i],
        ) by {
            assert(is_listed_group(g, color, groups[i]));
            assert(labelled_with(g, l0, seeds[i]).contains(pt(seeds[i])));
            assert(seeds[i] != seed);
            assert forall|p: (int, int)| labelled_with(g, l1, seeds[i]).contains(p) == labelled_with(
                g,
                l0,
                seeds[i],
            ).contains(p) by {
                if in_bounds(g, p) && grp.contains(p) {
                    assert(l0[p.0][p.1] is None);
                }
            }
            assert(labelled_with(g, l1, seeds[i]) =~= labelled_with(g, l0, seeds[i]));
        }
        assert(group.len() > 0) by {
            if group.len() == 0 {
                lemma_points_empty(group);
                assert(labelled_with(g, l1, seed).contains(pt(seed)));
            }
        }
        assert(points(group).contains(pt(group[0])));
        lemma_same_group(g, color, pt(seed), pt(group[0]));
        assert(is_listed_group(g, color, group));
        assert forall|i: int| 0 <= i < gs.len() implies #[trigger] is_listed_group(g, color, gs[i]) by {
            if i < groups.len() {
                assert(gs[i] == groups[i]);
            }
        }
        assert forall|i: int|
            0 <= i < gs.len() implies points(#[trigger] gs[i]) == labelled_with(g, l1, ss[i])
                && labelled_with(g, l1, ss[i]) == group_of(g, color, pt(ss[i]))
                && labelled_with(g, l1, ss[i]).contains(pt(ss[i])) by {
            if i < groups.len() {
                assert(gs[i] == groups[i]);
                assert(ss[i] == seeds[i]);
            }
        }
        assert forall|i: int, j: int|
            0 <= i < gs.len() && 0 <= j < gs.len() && i != j implies points(#[trigger] gs[i]).disjoint(
                points(#[trigger] gs[j]),
            ) by {
            if i < groups.len() && j < groups.len() {
                assert(gs[i] == groups[i]);
                assert(gs[j] == groups[j]);
            } else {
                let k = if i < groups.len() {
                    i
                } else {
                    j
                };
                assert(gs[k] == groups[k]);
                assert forall|p: (int, int)| points(gs[k]).contains(p) implies !points(group).contains(p) by {
                    assert(labelled_with(g, l0, seeds[k]).contains(p));
                    assert(l0[p.0][p.1] is Some);
                }
            }
        }
        assert forall|a: int, b: int|
            in_bounds(g, (a, b)) && #[trigger] l1[a][b] is Some implies exists|i: int|
                0 <= i < ss.len() && l1[a][b] == Some(#[trigger] ss[i]) by {
            if grp.contains((a, b)) {
                assert(ss[seeds.len() as int] == seed);
            } else {
                assert(l0[a][b] is Some);
                let i = choose|i: int| 0 <= i < seeds.len() && l0[a][b] == Some(#[trigger] seeds[i]);
                assert(ss[i] == seeds[i]);
            }
        }
    }

    /// Labels with `seed` every stone of `player` connected to `seed`, with an explicit stack.
    pub fn get_group(board: &GoBoard, player: GoPlayer, labels: &mut Labels, seed: (u32, u32))
        requires
            board.wf(),
            has_shape(label_grid(*old(labels)), board@.len() as int),
            stone_of(board@, player, pt(seed)),
            label_grid(*old(labels))[seed.0 as int][seed.1 as int] is None,
            forall|a: int, b: int|
                in_bounds(board@, (a, b)) ==> #[trigger] label_grid(*old(labels))[a][b] != Some(seed),
            is_closed(board@, player, labelled(board@, label_grid(*old(labels)))),
        ensures
            has_shape(label_grid(*final(labels)), board@.len() as int),
            forall|a: int, b: int|
                in_bounds(board@, (a, b)) ==> #[trigger] label_grid(*final(labels))[a][b] == if group_of(
                    board@,
                    player,
                    pt(seed),
                ).contains((a, b)) {
                    Some(seed)
                } else {
                    label_grid(*old(labels))[a][b]
                },
            forall|a: int, b: int|
                group_of(board@, player, pt(seed)).contains((a, b)) ==> #[trigger] label_grid(
                    *old(labels),
                )[a][b] is None,
    {
        let ghost g = board@;
        let ghost l0 = label_grid(*labels);
        assert(l0[seed.0 as int].len() == g.len());
        set_label(labels, seed.0 as usize, seed.1 as usize, seed);
        let mut stack: Vec<(u32, u32)> = Vec::new();
        stack.push(seed);
        proof {
            lemma_fill_start(g, player, seed, l0, label_grid(*labels), stack@);
        }
        while stack.len() > 0
            invariant
                g == board@,
                board.wf(),
                has_shape(l0, g.len() as int),
                forall|a: int, b: int| in_bounds(g, (a, b)) ==> #[trigger] l0[a][b] != Some(seed),
                fill_state(g, player, seed, l0, label_grid(*labels), stack@),
            decreases count_none(label_grid(*labels)), stack@.len(),
        {
            let ghost st0 = stack@;
            let ghost la = label_grid(*labels);
            let p = stack.pop().unwrap();
            let ghost st1 = stack@;
            proof {
                assert(st0[st0.len() - 1] == p);
                assert(labelled_with(g, la, seed).contains(pt(st0[st0.len() - 1])));
            }
            Self::extend_neighbors(board, player, labels, &mut stack, seed, p);
            proof {
                lemma_fill_step(g, player, seed, l0, la, label_grid(*labels), st0, st1, stack@, p);
            }
        }
        proof {
            lemma_fill_done(g, player, seed, l0, label_grid(*labels));
        }
    }

    /// Labels and stacks every unlabelled stone of `player` next to `p`.
    fn extend_neighbors(
        board: &GoBoard,
        player: GoPlayer,
        labels: &mut Labels,
        stack: &mut Vec<(u32, u32)>,
        seed: (u32, u32),
        p: (u32, u32),
    )
        requires
            board.wf(),
            has_shape(label_grid(*old(labels)), board@.len() as int),
            in_bounds(board@, pt(p)),
            group_of(board@, player, pt(seed)).contains(pt(p)),
            labelled_with(board@, label_grid(*old(labels)), seed).subset_of(group_of(board@, player, pt(seed))),
        ensures
            has_shape(label_grid(*final(labels)), board@.len() as int),
            grows(board@, label_grid(*old(labels)), label_grid(*final(labels)), old(stack)@, final(stack)@, seed),
            labelled_with(board@, label_grid(*final(labels)), seed).subset_of(group_of(board@, player, pt(seed))),
            forall|q: (int, int)|
                #[trigger] adjacent(pt(p), q) && stone_of(board@, player, q) ==> labelled(
                    board@,
                    label_grid(*final(labels)),
                ).contains(q),
    {
        let ghost g = board@;
        let n = board.board_state.len();
        let up = if p.0 > 0 {
            Some((p.0 - 1, p.1))
        } else {
            None
        };
        let down = if (p.0 as usize) + 1 < n {
            Some((p.0 + 1, p.1))
        } else {
            None
        };
        let left = if p.1 > 0 {
            Some((p.0, p.1 - 1))
        } else {
            None
        };
        let right = if (p.1 as usize) + 1 < n {
            Some((p.0, p.1 + 1))
        } else {
            None
        };
        let ghost l0 = label_grid(*labels);
        let ghost s0 = stack@;
        Self::extend_group(board, player, labels, stack, seed, up, p);
        let ghost l1 = label_grid(*labels);
        let ghost s1 = stack@;
        Self::extend_group(board, player, labels, stack, seed, down, p);
        let ghost l2 = label_grid(*labels);
        let ghost s2 = stack@;
        Self::extend_group(board, player, labels, stack, seed, left, p);
        let ghost l3 = label_grid(*labels);
        let ghost s3 = stack@;
        Self::extend_group(board, player, labels, stack, seed, right, p);
        proof {
            let l4 = label_grid(*labels);
            lemma_grows_trans(g, l0, l1, l2, s0, s1, s2, seed);
            lemma_grows_trans(g, l0, l2, l3, s0, s2, s3, seed);
            lemma_grows_trans(g, l0, l3, l4, s0, s3, stack@, seed);
            assert forall|q: (int, int)| #[trigger] adjacent(pt(p), q) && stone_of(g, player, q) implies labelled(
                g,
                l4,
            ).contains(q) by {
                if q.0 < p.0 {
                    assert(q == pt(up->Some_0));
                    assert(labelled(g, l1).contains(q));
                    assert(labelled(g, l2).contains(q));
                    assert(labelled(g, l3).contains(q));
                } else if q.0 > p.0 {
                    assert(q == pt(down->Some_0));
                    assert(labelled(g, l2).contains(q));
                    assert(labelled(g, l3).contains(q));
                } else if q.1 < p.1 {
                    assert(q == pt(left->Some_0));
                    assert(labelled(g, l3).contains(q));
                } else {
                    assert(q == pt(right->Some_0));
                }
            }
        }
    }

    /// Labels `q` with `seed` and stacks it when it holds an unlabelled stone of `player`.
    fn extend_group(
        board: &GoBoard,
        player: GoPlayer,
        labels: &mut Labels,
        stack: &mut Vec<(u32, u32)>,
        seed: (u32, u32),
        q: Option<(u32, u32)>,
        from: (u32, u32),
    )
        requires
            board.wf(),
            has_shape(label_grid(*old(labels)), board@.len() as int),
            q is Some ==> in_bounds(board@, pt(q->Some_0)) && adjacent(pt(from), pt(q->Some_0)),
            group_of(board@, player, pt(seed)).contains(pt(from)),
            labelled_with(board@, label_grid(*old(labels)), seed).subset_of(group_of(board@, player, pt(seed))),
        ensures
            has_shape(label_grid(*final(labels)), board@.len() as int),
            grows(board@, label_grid(*old(labels)), label_grid(*final(labels)), old(stack)@, final(stack)@, seed),
            labelled(board@, label_grid(*old(labels))).subset_of(labelled(board@, label_grid(*final(labels)))),
            labelled_with(board@, label_grid(*final(labels)), seed).subset_of(group_of(board@, player, pt(seed))),
            q is Some && stone_of(board@, player, pt(q->Some_0)) ==> labelled(
                board@,
                label_grid(*final(labels)),
            ).contains(pt(q->Some_0)),
    {
        let ghost g = board@;
        let ghost l = label_grid(*labels);
        let ghost s = stack@;
        match q {
            None => {
                proof {
                    lemma_grows_refl(g, l, s, seed);
                }
            },
            Some(q) => {
                assert(g[q.0 as int].len() == g.len());
                assert(l[q.0 as int].len() == g.len());
                let here = board.board_state[q.0 as usize][q.1 as usize];
                if here == Some(player) && labels[q.0 as usize][q.1 as usize].is_none() {
                    proof {
                        lemma_count_none_update(l, q.0 as int, q.1 as int, seed);
                        lemma_connected_step(g, player, pt(seed), pt(from), pt(q));
                    }
                    set_label(labels, q.0 as usize, q.1 as usize, seed);
                    stack.push(q);
                    proof {
                        let l1 = label_grid(*labels);
                        assert(stack@[s.len() as int] == q);
                        assert forall|a: int, b: int|
                            in_bounds(g, (a, b)) && l1[a][b] != l[a][b] implies l1[a][b] == Some(seed) && exists|k: int|
                                s.len() <= k < stack@.len() && pt(#[trigger] stack@[k]) == (a, b) by {
                            assert(a == q.0 && b == q.1);
                        }
                        assert(labelled_with(g, l1, seed) =~= labelled_with(g, l, seed).insert(pt(q)));
                        assert(grows(g, l, l1, s, stack@, seed));
                    }
                } else {
                    proof {
                        lemma_grows_refl(g, l, s, seed);
                    }
                }
            },
        }
    }
}

/// The labels and the stack only grow: a label stays, the stack keeps what it held below, and
/// each new label is `seed`, on a cell that was pushed.
pub open spec fn grows(
    g: Grid,
    l0: LabelGrid,
    l1: LabelGrid,
    s0: Seq<(u32, u32)>,
    s1: Seq<(u32, u32)>,
    seed: (u32, u32),
) -> bool {
    &&& s0.len() <= s1.len()
    &&& forall|k: int| 0 <= k < s0.len() ==> #[trigger] s1[k] == s0[k]
    &&& forall|a: int, b: int|
        #![trigger l0[a][b]]
        #![trigger l1[a][b]]
        in_bounds(g, (a, b)) && l0[a][b] is Some ==> l1[a][b] == l0[a][b]
    &&& forall|a: int, b: int|
        #![trigger l0[a][b]]
        #![trigger l1[a][b]]
        in_bounds(g, (a, b)) && l1[a][b] != l0[a][b] ==> l1[a][b] == Some(seed) && exists|k: int|
            s0.len() <= k < s1.len() && pt(#[trigger] s1[k]) == (a, b)
    &&& forall|k: int| s0.len() <= k < s1.len() ==> labelled_with(g, l1, seed).contains(pt(#[trigger] s1[k]))
    &&& count_none(l1) + s1.len() == count_none(l0) + s0.len()
}

proof fn lemma_grows_refl(g: Grid, l: LabelGrid, s: Seq<(u32, u32)>, seed: (u32, u32))
    ensures
        grows(g, l, l, s, s, seed),
{
}

proof fn lemma_grows_trans(
    g: Grid,
    l0: LabelGrid,
    l1: LabelGrid,
    l2: LabelGrid,
    s0: Seq<(u32, u32)>,
    s1: Seq<(u32, u32)>,
    s2: Seq<(u32, u32)>,
    seed: (u32, u32),
)
    requires
        grows(g, l0, l1, s0, s1, seed),
        grows(g, l1, l2, s1, s2, seed),
    ensures
        grows(g, l0, l2, s0, s2, seed),
{
    assert forall|k: int| 0 <= k < s0.len() implies #[trigger] s2[k] == s0[k] by {
        assert(s1[k] == s0[k]);
    }
    assert forall|a: int, b: int|
        in_bounds(g, (a, b)) && l2[a][b] != l0[a][b] implies l2[a][b] == Some(seed) && exists|k: int|
            s0.len() <= k < s2.len() && pt(#[trigger] s2[k]) == (a, b) by {
        if l1[a][b] != l0[a][b] {
            let k = choose|k: int| s0.len() <= k < s1.len() && pt(#[trigger] s1[k]) == (a, b);
            assert(s2[k] == s1[k]);
        } else {
            let k = choose|k: int| s1.len() <= k < s2.len() && pt(#[trigger] s2[k]) == (a, b);
        }
    }
    assert forall|k: int| s0.len() <= k < s2.len() implies labelled_with(g, l2, seed).contains(pt(#[trigger] s2[k])) by {
        if k < s1.len() {
            assert(s2[k] == s1[k]);
            assert(labelled_with(g, l1, seed).contains(pt(s1[k])));
            let p = pt(s1[k]);
            assert(l1[p.0][p.1] is Some);
        }
    }
}

/// What holds of the labels and the stack while a group is filled from `seed`.
pub open spec fn fill_state(
    g: Grid,
    player: GoPlayer,
    seed: (u32, u32),
    l0: LabelGrid,
    l: LabelGrid,
    st: Seq<(u32, u32)>,
) -> bool {
    &&& has_shape(l, g.len() as int)
    &&& labelled_with(g, l, seed).subset_of(group_of(g, player, pt(seed)))
    &&& labelled_with(g, l, seed).contains(pt(seed))
    &&& forall|a: int, b: int|
        #![trigger l[a][b]]
        in_bounds(g, (a, b)) && l[a][b] != Some(seed) ==> l[a][b] == l0[a][b]
    &&& forall|a: int, b: int|
        #![trigger l[a][b]]
        in_bounds(g, (a, b)) && l[a][b] == Some(seed) ==> l0[a][b] is None
    &&& forall|k: int| 0 <= k < st.len() ==> labelled_with(g, l, seed).contains(pt(#[trigger] st[k]))
    &&& forall|p: (int, int), q: (int, int)|
        labelled_with(g, l, seed).contains(p) && #[trigger] adjacent(p, q) && stone_of(g, player, q)
            && !labelled(g, l).contains(q) ==> exists|k: int| 0 <= k < st.len() && pt(#[trigger] st[k]) == p
}

proof fn lemma_fill_start(
    g: Grid,
    player: GoPlayer,
    seed: (u32, u32),
    l0: LabelGrid,
    l: LabelGrid,
    st: Seq<(u32, u32)>,
)
    requires
        has_shape(l0, g.len() as int),
        stone_of(g, player, pt(seed)),
        l0[seed.0 as int][seed.1 as int] is None,
        forall|a: int, b: int| in_bounds(g, (a, b)) ==> #[trigger] l0[a][b] != Some(seed),
        l == with_label(l0, seed.0 as int, seed.1 as int, seed),
        st == seq![seed],
    ensures
        fill_state(g, player, seed, l0, l, st),
{
    lemma_connected_refl(g, player, pt(seed));
    assert(labelled_with(g, l, seed) =~= set![pt(seed)]) by {
        assert forall|p: (int, int)| labelled_with(g, l, seed).contains(p) implies p == pt(seed) by {
            if p != pt(seed) {
                assert(l[p.0][p.1] == l0[p.0][p.1]);
            }
        }
    }
    assert(st[0] == seed);
    assert forall|a: int, b: int| in_bounds(g, (a, b)) && #[trigger] l[a][b] == Some(seed) implies l0[a][b] is None by {
        assert((a, b) == pt(seed));
    }
}

proof fn lemma_fill_step(
    g: Grid,
    player: GoPlayer,
    seed: (u32, u32),
    l0: LabelGrid,
    la: LabelGrid,
    lb: LabelGrid,
    st0: Seq<(u32, u32)>,
    st1: Seq<(u32, u32)>,
    st2: Seq<(u32, u32)>,
    p: (u32, u32),
)
    requires
        fill_state(g, player, seed, l0, la, st0),
        st0.len() > 0,
        st1 == st0.drop_last(),
        p == st0.last(),
        grows(g, la, lb, st1, st2, seed),
        has_shape(lb, g.len() as int),
        labelled_with(g, lb, seed).subset_of(group_of(g, player, pt(seed))),
        forall|q: (int, int)| #[trigger] adjacent(pt(p), q) && stone_of(g, player, q) ==> labelled(g, lb).contains(q),
    ensures
        fill_state(g, player, seed, l0, lb, st2),
        count_none(lb) < count_none(la) || (count_none(lb) == count_none(la) && st2.len() < st0.len()),
{
    let s = pt(seed);
    assert(la[s.0][s.1] is Some);
    assert forall|k: int| 0 <= k < st2.len() implies labelled_with(g, lb, seed).contains(pt(#[trigger] st2[k])) by {
        if k < st1.len() {
            assert(st2[k] == st1[k]);
            assert(st1[k] == st0[k]);
            assert(labelled_with(g, la, seed).contains(pt(st0[k])));
            let c = pt(st0[k]);
            assert(la[c.0][c.1] is Some);
        }
    }
    assert forall|a: (int, int), q: (int, int)|
        labelled_with(g, lb, seed).contains(a) && #[trigger] adjacent(a, q) && stone_of(g, player, q)
            && !labelled(g, lb).contains(q) implies exists|k: int| 0 <= k < st2.len() && pt(#[trigger] st2[k]) == a by {
        if la[q.0][q.1] is Some {
            assert(lb[q.0][q.1] == la[q.0][q.1]);
        }
        if labelled_with(g, la, seed).contains(a) {
            let k = choose|k: int| 0 <= k < st0.len() && pt(#[trigger] st0[k]) == a;
            if k == st0.len() - 1 {
                assert(labelled(g, lb).contains(q));
            }
            assert(st2[k] == st1[k]);
            assert(st1[k] == st0[k]);
        } else {
            assert(lb[a.0][a.1] != la[a.0][a.1]);
            let k = choose|k: int| st1.len() <= k < st2.len() && pt(#[trigger] st2[k]) == a;
        }
    }
}

proof fn lemma_fill_done(g: Grid, player: GoPlayer, seed: (u32, u32), l0: LabelGrid, l: LabelGrid)
    requires
        fill_state(g, player, seed, l0, l, Seq::empty()),
        has_shape(l0, g.len() as int),
        is_closed(g, player, labelled(g, l0)),
    ensures
        forall|a: int, b: int|
            in_bounds(g, (a, b)) ==> #[trigger] l[a][b] == if group_of(g, player, pt(seed)).contains((a, b)) {
                Some(seed)
            } else {
                l0[a][b]
            },
        forall|a: int, b: int| group_of(g, player, pt(seed)).contains((a, b)) ==> #[trigger] l0[a][b] is None,
{
    let grp = group_of(g, player, pt(seed));
    let s = labelled_with(g, l, seed);
    let st: Seq<(u32, u32)> = Seq::empty();
    assert forall|a: (int, int), q: (int, int)|
        s.contains(a) && #[trigger] adjacent(a, q) && stone_of(g, player, q) implies #[trigger] s.contains(q) by {
        if !labelled(g, l).contains(q) {
            assert(exists|k: int| 0 <= k < st.len() && pt(#[trigger] st[k]) == a);
        }
        if l[q.0][q.1] != Some(seed) {
            assert(labelled(g, l0).contains(q));
            assert(adjacent(q, a));
            assert(labelled(g, l0).contains(a));
        }
    }
    lemma_closed_holds_group(g, player, s, pt(seed));
    assert forall|a: int, b: int| grp.contains((a, b)) implies #[trigger] l0[a][b] is None by {
        assert(s.contains((a, b)));
    }
    assert forall|a: int, b: int| in_bounds(g, (a, b)) implies #[trigger] l[a][b] == if grp.contains((a, b)) {
        Some(seed)
    } else {
        l0[a][b]
    } by {
        if grp.contains((a, b)) {
            assert(s.contains((a, b)));
        } else {
            assert(!s.contains((a, b)));
        }
    }
}

/// A grid of `n` by `n` cells without labels.
fn new_labels(n: usize) -> (labels: Labels)
    ensures
        has_shape(label_grid(labels), n as int),
        forall|a: int, b: int| 0 <= a < n && 0 <= b < n ==> #[trigger] label_grid(labels)[a][b] is None,
{
    let mut labels: Labels = Vec::new();
    for i in 0..n
        invariant
            labels@.len() == i,
            forall|a: int| 0 <= a < i ==> #[trigger] labels@[a]@.len() == n,
            forall|a: int, b: int| 0 <= a < i && 0 <= b < n ==> #[trigger] labels@[a]@[b] is None,
    {
        let mut row: Vec<Option<(u32, u32)>> = Vec::new();
        for j in 0..n
            invariant
                row@.len() == j,
                forall|b: int| 0 <= b < j ==> #[trigger] row@[b] is None,
        {
            row.push(None);
        }
        labels.push(row);
    }
    labels
}

fn set_label(labels: &mut Labels, r: usize, c: usize, seed: (u32, u32))
    requires
        0 <= r < label_grid(*old(labels)).len(),
        0 <= c < label_grid(*old(labels))[r as int].len(),
    ensures
        label_grid(*final(labels)) == with_label(label_grid(*old(labels)), r as int, c as int, seed),
{
    let ghost l = label_grid(*labels);
    labels[r][c] = Some(seed);
    assert(labels@[r as int]@ =~= l[r as int].update(c as int, Some(seed)));
    assert(label_grid(*labels) =~= with_label(l, r as int, c as int, seed));
}

/// The cells labelled with `seed`, in row-major order.
fn collect_labelled(board: &GoBoard, labels: &Labels, seed: (u32, u32)) -> (group: Group)
    requires
        board.wf(),
        has_shape(label_grid(*labels), board@.len() as int),
    ensures
        sorted_points(group@),
        points(group@) == labelled_with(board@, label_grid(*labels), seed),
{
    let ghost g = board@;
    let ghost l = label_grid(*labels);
    let n = board.board_state.len();
    let mut group: Group = Vec::new();
    proof {
        lemma_points_empty(group@);
    }
    for r in 0..n
        invariant
            g == board@,
            board.wf(),
            n == g.len(),
            l == label_grid(*labels),
            has_shape(l, n as int),
            sorted_points(group@),
            forall|k: int| 0 <= k < group@.len() ==> (#[trigger] group@[k]).0 < r,
            points(group@) == labelled_with(g, l, seed).filter(|p: (int, int)| p.0 < r),
    {
        for c in 0..n
            invariant
                g == board@,
                board.wf(),
                n == g.len(),
                0 <= r < n,
                l == label_grid(*labels),
                has_shape(l, n as int),
                sorted_points(group@),
                forall|k: int| 0 <= k < group@.len() ==> lex_lt(pt(#[trigger] group@[k]), (r as int, c as int)),
                points(group@) == labelled_with(g, l, seed).filter(
                    |p: (int, int)| p.0 < r || (p.0 == r && p.1 < c),
                ),
        {
            let ghost before = group@;
            assert(l[r as int].len() == n);
            let hit = match labels[r][c] {
                Some(x) => x.0 == seed.0 && x.1 == seed.1,
                None => false,
            };
            if hit {
                group.push((r as u32, c as u32));
                proof {
                    lemma_points_push(before, (r as u32, c as u32));
                }
            }
            proof {
                assert(points(group@) =~= labelled_with(g, l, seed).filter(
                    |p: (int, int)| p.0 < r || (p.0 == r && p.1 < c + 1),
                ));
            }
        }
        proof {
            assert(points(group@) =~= labelled_with(g, l, seed).filter(|p: (int, int)| p.0 < r + 1));
        }
    }
    proof {
        assert(points(group@) =~= labelled_with(g, l, seed));
    }
    group
}

} // verus!
