use vstd::prelude::*;

use crate::domain::connectivity::{
    adjacent, group_of, in_bounds, is_group_on, lemma_connected_ends, lemma_points_empty,
    lemma_points_push, lemma_same_group, liberties_of, lex_lt, points, pt, sorted_points, stone_of,
    Grid,
};
use crate::domain::go_board::{GoBoard, GoPlayer};
use crate::domain::group_aggregator::{is_group_list, is_listed_group, Group, GroupAggregator};

verus! {

/// The liberties of one group, in row-major order.
pub type Liberties = Vec<(u32, u32)>;

#[derive(Debug, Clone, Copy, PartialEq, Eq, Structural)]
pub enum LibertyError {
    /// The coordinates given are not one of the board's groups.
    InvalidGroup,
}

/// Liberties are vacant cells of the board next to a member of the group: none of them holds a
/// stone, of either colour.
pub proof fn lemma_liberties_vacant_and_adjacent(g: Grid, s: Set<(int, int)>, q: (int, int))
    requires
        liberties_of(g, s).contains(q),
    ensures
        in_bounds(g, q),
        g[q.0][q.1] is None,
        !stone_of(g, GoPlayer::BLACK, q),
        !stone_of(g, GoPlayer::WHITE, q),
        exists|p: (int, int)| s.contains(p) && #[trigger] adjacent(p, q),
{
}

/// Where a list of groups of a colour is complete, the group of any stone of that colour is in it.
pub proof fn lemma_group_list_finds(g: Grid, color: GoPlayer, groups: Seq<Seq<(u32, u32)>>, p: (int, int))
    requires
        is_group_list(g, color, groups),
        stone_of(g, color, p),
    ensures
        exists|i: int| 0 <= i < groups.len() && points(#[trigger] groups[i]) == group_of(g, color, p),
{
    let i = choose|i: int| 0 <= i < groups.len() && points(#[trigger] groups[i]).contains(p);
    assert(is_listed_group(g, color, groups[i]));
    lemma_same_group(g, color, pt(groups[i][0]), p);
}

/// A list of cells equal to one of the listed groups is a group on the board, inside it.
pub proof fn lemma_found_is_group(
    g: Grid,
    color: GoPlayer,
    groups: Seq<Seq<(u32, u32)>>,
    v: Seq<(u32, u32)>,
    i: int,
)
    requires
        is_group_list(g, color, groups),
        0 <= i < groups.len(),
        points(groups[i]) == points(v),
    ensures
        is_group_on(g, points(v)),
        forall|k: int| 0 <= k < v.len() ==> in_bounds(g, pt(#[trigger] v[k])),
{
    assert(is_listed_group(g, color, groups[i]));
    let first = pt(groups[i][0]);
    assert(pt(groups[i][0]) == first);
    assert(points(groups[i]).contains(first));
    lemma_connected_ends(g, color, first, first);
    assert(g[first.0][first.1] is Some);
    assert(is_group_on(g, points(v)));
    assert forall|k: int| 0 <= k < v.len() implies in_bounds(g, pt(#[trigger] v[k])) by {
        assert(points(v).contains(pt(v[k])));
        lemma_connected_ends(g, color, first, pt(v[k]));
    }
}

pub struct GroupLibertiesAggregator;

impl GroupLibertiesAggregator {
    /// The liberties of `group`, given as coordinates in any order. The group has to be one of
    /// the board's groups, else the answer is `InvalidGroup`.
    pub fn get_group_liberties(board: &GoBoard, group: &Group) -> (r: Result<Liberties, LibertyError>)
        requires
            board.wf(),
        ensures
            r is Ok <==> is_group_on(board@, points(group@)),
            r is Ok ==> sorted_points(r->Ok_0@) && points(r->Ok_0@) == liberties_of(board@, points(group@)),
            r is Err ==> r->Err_0 == LibertyError::InvalidGroup,
    {
        let ghost g = board@;
        let groups = GroupAggregator::get_piece_groups(board);
        let ghost black = groups.0@.map_values(|v: Group| v@);
        let ghost white = groups.1@.map_values(|v: Group| v@);
        let in_black = contains_group(&groups.0, group);
        let in_white = contains_group(&groups.1, group);
        if !in_black && !in_white {
            proof {
                if is_group_on(g, points(group@)) {
                    let p = choose|p: (int, int)|
                        in_bounds(g, p) && #[trigger] g[p.0][p.1] is Some && points(group@) == group_of(
                            g,
                            g[p.0][p.1]->Some_0,
                            p,
                        );
                    if g[p.0][p.1] == Some(GoPlayer::BLACK) {
                        lemma_group_list_finds(g, GoPlayer::BLACK, black, p);
                        let i = choose|i: int|
                            0 <= i < black.len() && points(#[trigger] black[i]) == group_of(g, GoPlayer::BLACK, p);
                        assert(black[i] == groups.0@[i]@);
                    } else {
                        lemma_group_list_finds(g, GoPlayer::WHITE, white, p);
                        let i = choose|i: int|
                            0 <= i < white.len() && points(#[trigger] white[i]) == group_of(g, GoPlayer::WHITE, p);
                        assert(white[i] == groups.1@[i]@);
                    }
                }
            }
            return Err(LibertyError::InvalidGroup);
        }
        proof {
            if in_black {
                let i = choose|i: int| 0 <= i < groups.0@.len() && points(#[trigger] groups.0@[i]@) == points(group@);
                assert(black[i] == groups.0@[i]@);
                lemma_found_is_group(g, GoPlayer::BLACK, black, group@, i);
            } else {
                let i = choose|i: int| 0 <= i < groups.1@.len() && points(#[trigger] groups.1@[i]@) == points(group@);
                assert(white[i] == groups.1@[i]@);
                lemma_found_is_group(g, GoPlayer::WHITE, white, group@, i);
            }
        }
        Ok(group_liberties(board, group))
    }
}

/// The liberties of the cells of `group`, in row-major order.
pub fn group_liberties(board: &GoBoard, group: &Group) -> (libs: Liberties)
    requires
        board.wf(),
        forall|k: int| 0 <= k < group@.len() ==> in_bounds(board@, pt(#[trigger] group@[k])),
    ensures
        sorted_points(libs@),
        points(libs@) == liberties_of(board@, points(group@)),
{
    let ghost g = board@;
    let ghost s = points(group@);
    let n = board.board_state.len();
    let mask = member_mask(n, group);
    let mut libs: Liberties = Vec::new();
    proof {
        lemma_points_empty(libs@);
    }
    for r in 0..n
        invariant
            g == board@,
            board.wf(),
            n == g.len(),
            s == points(group@),
            is_mask_of(mask@.map_values(|row: Vec<bool>| row@), s, n as int),
            sorted_points(libs@),
            forall|k: int| 0 <= k < libs@.len() ==> (#[trigger] libs@[k]).0 < r,
            points(libs@) == liberties_of(g, s).filter(|p: (int, int)| p.0 < r),
    {
        for c in 0..n
            invariant
                g == board@,
                board.wf(),
                n == g.len(),
                0 <= r < n,
                s == points(group@),
                is_mask_of(mask@.map_values(|row: Vec<bool>| row@), s, n as int),
                sorted_points(libs@),
                forall|k: int| 0 <= k < libs@.len() ==> lex_lt(pt(#[trigger] libs@[k]), (r as int, c as int)),
                points(libs@) == liberties_of(g, s).filter(|p: (int, int)| p.0 < r || (p.0 == r && p.1 < c)),
        {
            let ghost before = libs@;
            assert(g[r as int].len() == n);
            let vacant = board.board_state[r][c].is_none();
            if vacant && touches(&mask, n, r, c, Ghost(s)) {
                libs.push((r as u32, c as u32));
                proof {
                    lemma_points_push(before, (r as u32, c as u32));
                }
            }
            proof {
                assert(points(libs@) =~= liberties_of(g, s).filter(
                    |p: (int, int)| p.0 < r || (p.0 == r && p.1 < c + 1),
                ));
            }
        }
        proof {
            assert(points(libs@) =~= liberties_of(g, s).filter(|p: (int, int)| p.0 < r + 1));
        }
    }
    proof {
        assert(points(libs@) =~= liberties_of(g, s));
    }
    libs
}

/// An `n` by `n` grid of flags that is set exactly on the cells of `s`.
pub open spec fn is_mask_of(m: Seq<Seq<bool>>, s: Set<(int, int)>, n: int) -> bool {
    &&& m.len() == n
    &&& forall|a: int| 0 <= a < n ==> #[trigger] m[a].len() == n
    &&& forall|a: int, b: int| 0 <= a < n && 0 <= b < n ==> #[trigger] m[a][b] == s.contains((a, b))
    &&& forall|p: (int, int)| s.contains(p) ==> 0 <= p.0 < n && 0 <= p.1 < n
}

/// Flags the cells of `group` on an `n` by `n` grid.
fn member_mask(n: usize, group: &Group) -> (mask: Vec<Vec<bool>>)
    requires
        forall|k: int| 0 <= k < group@.len() ==> (#[trigger] group@[k]).0 < n && group@[k].1 < n,
    ensures
        is_mask_of(mask@.map_values(|row: Vec<bool>| row@), points(group@), n as int),
{
    let mut mask: Vec<Vec<bool>> = Vec::new();
    for i in 0..n
        invariant
            mask@.len() == i,
            forall|a: int| 0 <= a < i ==> #[trigger] mask@[a]@.len() == n,
            forall|a: int, b: int| 0 <= a < i && 0 <= b < n ==> !#[trigger] mask@[a]@[b],
    {
        let mut row: Vec<bool> = Vec::new();
        for j in 0..n
            invariant
                row@.len() == j,
                forall|b: int| 0 <= b < j ==> !#[trigger] row@[b],
        {
            row.push(false);
        }
        mask.push(row);
    }
    for k in 0..group.len()
        invariant
            forall|k: int| 0 <= k < group@.len() ==> (#[trigger] group@[k]).0 < n && group@[k].1 < n,
            mask@.len() == n,
            forall|a: int| 0 <= a < n ==> #[trigger] mask@[a]@.len() == n,
            forall|a: int, b: int|
                0 <= a < n && 0 <= b < n ==> #[trigger] mask@[a]@[b] == points(group@.subrange(0, k as int)).contains(
                    (a, b),
                ),
    {
        let (r, c) = group[k];
        let ghost old_mask = mask@;
        mask[r as usize][c as usize] = true;
        proof {
            assert(group@.subrange(0, k + 1) =~= group@.subrange(0, k as int).push((r, c)));
            lemma_points_push(group@.subrange(0, k as int), (r, c));
            assert forall|a: int| 0 <= a < n implies #[trigger] mask@[a]@.len() == n by {
                if a != r {
                    assert(mask@[a] == old_mask[a]);
                }
            }
            assert forall|a: int, b: int| 0 <= a < n && 0 <= b < n implies #[trigger] mask@[a]@[b] == points(
                group@.subrange(0, k + 1),
            ).contains((a, b)) by {
                if a != r {
                    assert(mask@[a] == old_mask[a]);
                }
            }
        }
    }
    proof {
        assert(group@.subrange(0, group@.len() as int) =~= group@);
        let m = mask@.map_values(|row: Vec<bool>| row@);
        assert forall|p: (int, int)| points(group@).contains(p) implies 0 <= p.0 < n && 0 <= p.1 < n by {
            let k = choose|k: int| 0 <= k < group@.len() && pt(#[trigger] group@[k]) == p;
        }
    }
    mask
}

/// Whether a flagged cell lies next to the cell at `r`, `c`.
fn touches(mask: &Vec<Vec<bool>>, n: usize, r: usize, c: usize, s: Ghost<Set<(int, int)>>) -> (t: bool)
    requires
        r < n,
        c < n,
        is_mask_of(mask@.map_values(|row: Vec<bool>| row@), s@, n as int),
    ensures
        t == exists|p: (int, int)| s@.contains(p) && #[trigger] adjacent(p, (r as int, c as int)),
{
    let ghost m = mask@.map_values(|row: Vec<bool>| row@);
    assert(m.len() == n);
    assert forall|a: int| 0 <= a < n implies #[trigger] mask@[a]@.len() == n by {
        assert(m[a].len() == n);
    }
    let up = r > 0 && mask[r - 1][c];
    let down = r + 1 < n && mask[r + 1][c];
    let left = c > 0 && mask[r][c - 1];
    let right = c + 1 < n && mask[r][c + 1];
    proof {
        let s = s@;
        if up {
            assert(m[r - 1][c as int]);
            assert(s.contains((r - 1, c as int)) && adjacent((r - 1, c as int), (r as int, c as int)));
        }
        if down {
            assert(m[r + 1][c as int]);
            assert(s.contains((r + 1, c as int)) && adjacent((r + 1, c as int), (r as int, c as int)));
        }
        if left {
            assert(m[r as int][c - 1]);
            assert(s.contains((r as int, c - 1)) && adjacent((r as int, c - 1), (r as int, c as int)));
        }
        if right {
            assert(m[r as int][c + 1]);
            assert(s.contains((r as int, c + 1)) && adjacent((r as int, c + 1), (r as int, c as int)));
        }
        if exists|p: (int, int)| s.contains(p) && #[trigger] adjacent(p, (r as int, c as int)) {
            let p = choose|p: (int, int)| s.contains(p) && #[trigger] adjacent(p, (r as int, c as int));
            assert(m[p.0][p.1]);
        }
    }
    up || down || left || right
}

/// Whether `v` lists the cell `x`.
pub fn has_point(v: &Group, x: (u32, u32)) -> (found: bool)
    ensures
        found == points(v@).contains(pt(x)),
{
    for k in 0..v.len()
        invariant
            forall|j: int| 0 <= j < k ==> pt(#[trigger] v@[j]) != pt(x),
    {
        if v[k].0 == x.0 && v[k].1 == x.1 {
            return true;
        }
    }
    assert(!points(v@).contains(pt(x)));
    false
}

/// Whether two lists hold the same cells, in whatever order and with whatever repetition.
pub fn same_points(a: &Group, b: &Group) -> (same: bool)
    ensures
        same == (points(a@) == points(b@)),
{
    for k in 0..a.len()
        invariant
            forall|j: int| 0 <= j < k ==> points(b@).contains(pt(#[trigger] a@[j])),
    {
        if !has_point(b, a[k]) {
            assert(points(a@).contains(pt(a@[k as int])));
            return false;
        }
    }
    for k in 0..b.len()
        invariant
            forall|j: int| 0 <= j < a@.len() ==> points(b@).contains(pt(#[trigger] a@[j])),
            forall|j: int| 0 <= j < k ==> points(a@).contains(pt(#[trigger] b@[j])),
    {
        if !has_point(a, b[k]) {
            assert(points(b@).contains(pt(b@[k as int])));
            return false;
        }
    }
    assert(points(a@) =~= points(b@));
    true
}

/// Whether one of `groups` holds exactly the cells of `group`.
pub fn contains_group(groups: &Vec<Group>, group: &Group) -> (found: bool)
    ensures
        found == exists|i: int| 0 <= i < groups@.len() && points(#[trigger] groups@[i]@) == points(group@),
{
    for k in 0..groups.len()
        invariant
            forall|j: int| 0 <= j < k ==> points(#[trigger] groups@[j]@) != points(group@),
    {
        if same_points(&groups[k], group) {
            return true;
        }
    }
    false
}

} // verus!
