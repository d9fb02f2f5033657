use vstd::prelude::*;

use crate::domain::go_board::GoPlayer;

verus! {

/// The cells of a board, row by row.
pub type Grid = Seq<Seq<Option<GoPlayer>>>;

/// A coordinate of the grid as a pair of integers.
pub open spec fn pt(x: (u32, u32)) -> (int, int) {
    (x.0 as int, x.1 as int)
}

pub open spec fn in_bounds(g: Grid, p: (int, int)) -> bool {
    0 <= p.0 < g.len() && 0 <= p.1 < g.len()
}

/// A stone of `color` stands on `p`.
pub open spec fn stone_of(g: Grid, color: GoPlayer, p: (int, int)) -> bool {
    in_bounds(g, p) && g[p.0][p.1] == Some(color)
}

/// `p` is a cell of the board with no stone on it.
pub open spec fn is_vacant(g: Grid, p: (int, int)) -> bool {
    in_bounds(g, p) && g[p.0][p.1] is None
}

/// Up, down, left or right of each other.
pub open spec fn adjacent(p: (int, int), q: (int, int)) -> bool {
    ||| (p.0 == q.0 && (p.1 == q.1 + 1 || q.1 == p.1 + 1))
    ||| (p.1 == q.1 && (p.0 == q.0 + 1 || q.0 == p.0 + 1))
}

/// A walk over stones of `color`, each step to an adjacent cell.
pub open spec fn is_chain(g: Grid, color: GoPlayer, path: Seq<(int, int)>) -> bool {
    &&& path.len() > 0
    &&& forall|i: int| 0 <= i < path.len() ==> stone_of(g, color, #[trigger] path[i])
    &&& forall|i: int| 0 <= i < path.len() - 1 ==> #[trigger] adjacent(path[i], path[i + 1])
}

/// A chain of `color` leads from `p` to `q`.
pub open spec fn connected(g: Grid, color: GoPlayer, p: (int, int), q: (int, int)) -> bool {
    exists|path: Seq<(int, int)>|
        #[trigger] is_chain(g, color, path) && path[0] == p && path.last() == q
}

/// The stones of `color` that `p` is connected to: its group.
pub open spec fn group_of(g: Grid, color: GoPlayer, p: (int, int)) -> Set<(int, int)> {
    Set::new(|q: (int, int)| connected(g, color, p, q))
}

/// A set from which no step over an adjacent stone of `color` leads out.
pub open spec fn is_closed(g: Grid, color: GoPlayer, s: Set<(int, int)>) -> bool {
    forall|p: (int, int), q: (int, int)|
        s.contains(p) && #[trigger] adjacent(p, q) && stone_of(g, color, q) ==> #[trigger] s.contains(q)
}

/// A walk inside `s` from `p` to `q`, each step to an adjacent cell.
pub open spec fn is_walk_within(s: Set<(int, int)>, path: Seq<(int, int)>, p: (int, int), q: (int, int)) -> bool {
    &&& path.len() > 0
    &&& path[0] == p
    &&& path.last() == q
    &&& forall|i: int| 0 <= i < path.len() ==> s.contains(#[trigger] path[i])
    &&& forall|i: int| 0 <= i < path.len() - 1 ==> #[trigger] adjacent(path[i], path[i + 1])
}

/// The vacant cells next to some member of `s`.
pub open spec fn liberties_of(g: Grid, s: Set<(int, int)>) -> Set<(int, int)> {
    Set::new(|q: (int, int)| is_vacant(g, q) && exists|p: (int, int)| s.contains(p) && #[trigger] adjacent(p, q))
}

/// `s` is one of the groups on the board.
pub open spec fn is_group_on(g: Grid, s: Set<(int, int)>) -> bool {
    exists|p: (int, int)|
        in_bounds(g, p) && #[trigger] g[p.0][p.1] is Some && s == group_of(g, g[p.0][p.1]->Some_0, p)
}

/// The coordinates listed in `v`.
pub open spec fn points(v: Seq<(u32, u32)>) -> Set<(int, int)> {
    Set::new(|p: (int, int)| exists|i: int| 0 <= i < v.len() && pt(#[trigger] v[i]) == p)
}

/// Row-major order: by row, then by column.
pub open spec fn lex_lt(a: (int, int), b: (int, int)) -> bool {
    a.0 < b.0 || (a.0 == b.0 && a.1 < b.1)
}

/// Strictly increasing in row-major order, hence without repetition.
pub open spec fn sorted_points(v: Seq<(u32, u32)>) -> bool {
    forall|i: int, j: int| 0 <= i < j < v.len() ==> lex_lt(pt(#[trigger] v[i]), pt(#[trigger] v[j]))
}

pub proof fn lemma_points_push(v: Seq<(u32, u32)>, x: (u32, u32))
    ensures
        points(v.push(x)) == points(v).insert(pt(x)),
{
    let w = v.push(x);
    assert forall|p: (int, int)| points(w).contains(p) == points(v).insert(pt(x)).contains(p) by {
        if points(v).contains(p) {
            let i = choose|i: int| 0 <= i < v.len() && pt(#[trigger] v[i]) == p;
            assert(w[i] == v[i]);
        }
        if points(w).contains(p) && p != pt(x) {
            let i = choose|i: int| 0 <= i < w.len() && pt(#[trigger] w[i]) == p;
            assert(v[i] == w[i]);
        }
        if p == pt(x) {
            assert(w[v.len() as int] == x);
        }
    }
    assert(points(w) =~= points(v).insert(pt(x)));
}

pub proof fn lemma_points_empty(v: Seq<(u32, u32)>)
    requires
        v.len() == 0,
    ensures
        points(v) == Set::<(int, int)>::empty(),
{
    assert(points(v) =~= Set::<(int, int)>::empty());
}

pub proof fn lemma_connected_refl(g: Grid, color: GoPlayer, p: (int, int))
    requires
        stone_of(g, color, p),
    ensures
        connected(g, color, p, p),
{
    let path = seq![p];
    assert(is_chain(g, color, path));
}

pub proof fn lemma_connected_ends(g: Grid, color: GoPlayer, p: (int, int), q: (int, int))
    requires
        connected(g, color, p, q),
    ensures
        stone_of(g, color, p),
        stone_of(g, color, q),
{
    let path = choose|path: Seq<(int, int)>| #[trigger] is_chain(g, color, path) && path[0] == p && path.last() == q;
    assert(stone_of(g, color, path[0]));
    assert(stone_of(g, color, path[path.len() - 1]));
}

/// One more step over an adjacent stone keeps a pair connected.
pub proof fn lemma_connected_step(g: Grid, color: GoPlayer, p: (int, int), q: (int, int), r: (int, int))
    requires
        connected(g, color, p, q),
        adjacent(q, r),
        stone_of(g, color, r),
    ensures
        connected(g, color, p, r),
{
    let path = choose|path: Seq<(int, int)>| #[trigger] is_chain(g, color, path) && path[0] == p && path.last() == q;
    let longer = path.push(r);
    assert forall|i: int| 0 <= i < longer.len() - 1 implies #[trigger] adjacent(longer[i], longer[i + 1]) by {
        if i < path.len() - 1 {
            assert(adjacent(path[i], path[i + 1]));
        }
    }
    assert forall|i: int| 0 <= i < longer.len() implies stone_of(g, color, #[trigger] longer[i]) by {
        if i < path.len() {
            assert(stone_of(g, color, path[i]));
        }
    }
    assert(is_chain(g, color, longer));
}

pub proof fn lemma_connected_symmetric(g: Grid, color: GoPlayer, p: (int, int), q: (int, int))
    requires
        connected(g, color, p, q),
    ensures
        connected(g, color, q, p),
{
    let path = choose|path: Seq<(int, int)>| #[trigger] is_chain(g, color, path) && path[0] == p && path.last() == q;
    let n = path.len();
    let back = Seq::new(n, |i: int| path[n - 1 - i]);
    assert forall|i: int| 0 <= i < back.len() - 1 implies #[trigger] adjacent(back[i], back[i + 1]) by {
        assert(adjacent(path[n - 2 - i], path[n - 2 - i + 1]));
    }
    assert forall|i: int| 0 <= i < back.len() implies stone_of(g, color, #[trigger] back[i]) by {
        assert(stone_of(g, color, path[n - 1 - i]));
    }
    assert(is_chain(g, color, back));
}

pub proof fn lemma_connected_transitive(
    g: Grid,
    color: GoPlayer,
    p: (int, int),
    q: (int, int),
    r: (int, int),
)
    requires
        connected(g, color, p, q),
        connected(g, color, q, r),
    ensures
        connected(g, color, p, r),
{
    let a = choose|path: Seq<(int, int)>| #[trigger] is_chain(g, color, path) && path[0] == p && path.last() == q;
    let b = choose|path: Seq<(int, int)>| #[trigger] is_chain(g, color, path) && path[0] == q && path.last() == r;
    let joined = a + b.drop_first();
    assert forall|i: int| 0 <= i < joined.len() - 1 implies #[trigger] adjacent(joined[i], joined[i + 1]) by {
        if i < a.len() - 1 {
            assert(adjacent(a[i], a[i + 1]));
        } else if i == a.len() - 1 {
            let z: int = 0;
            assert(adjacent(b[z], b[z + 1]));
        } else {
            let k = i - a.len() + 1;
            assert(adjacent(b[k], b[k + 1]));
        }
    }
    assert forall|i: int| 0 <= i < joined.len() implies stone_of(g, color, #[trigger] joined[i]) by {
        if i < a.len() {
            assert(stone_of(g, color, a[i]));
        } else {
            assert(stone_of(g, color, b[i - a.len() + 1]));
        }
    }
    if b.len() == 1 {
        assert(joined =~= a);
    } else {
        assert(joined.last() == b.last());
    }
    assert(is_chain(g, color, joined));
}

/// Connected stones have the same group.
pub proof fn lemma_same_group(g: Grid, color: GoPlayer, p: (int, int), q: (int, int))
    requires
        connected(g, color, p, q),
    ensures
        group_of(g, color, p) == group_of(g, color, q),
{
    lemma_connected_symmetric(g, color, p, q);
    assert forall|r: (int, int)| group_of(g, color, p).contains(r) == group_of(g, color, q).contains(r) by {
        if connected(g, color, p, r) {
            lemma_connected_transitive(g, color, q, p, r);
        }
        if connected(g, color, q, r) {
            lemma_connected_transitive(g, color, p, q, r);
        }
    }
    assert(group_of(g, color, p) =~= group_of(g, color, q));
}

/// A closed set that holds `p` holds the whole group of `p`.
pub proof fn lemma_closed_holds_group(g: Grid, color: GoPlayer, s: Set<(int, int)>, p: (int, int))
    requires
        is_closed(g, color, s),
        s.contains(p),
    ensures
        group_of(g, color, p).subset_of(s),
{
    assert forall|q: (int, int)| group_of(g, color, p).contains(q) implies s.contains(q) by {
        let path = choose|path: Seq<(int, int)>| #[trigger] is_chain(g, color, path) && path[0] == p && path.last() == q;
        lemma_closed_along(g, color, s, path, path.len() - 1);
    }
}

proof fn lemma_closed_along(g: Grid, color: GoPlayer, s: Set<(int, int)>, path: Seq<(int, int)>, k: int)
    requires
        is_closed(g, color, s),
        is_chain(g, color, path),
        s.contains(path[0]),
        0 <= k < path.len(),
    ensures
        s.contains(path[k]),
    decreases k,
{
    if k > 0 {
        let j = k - 1;
        lemma_closed_along(g, color, s, path, j);
        assert(adjacent(path[j], path[j + 1]));
        assert(stone_of(g, color, path[k]));
    }
}

/// A group is closed.
pub proof fn lemma_group_closed(g: Grid, color: GoPlayer, p: (int, int))
    ensures
        is_closed(g, color, group_of(g, color, p)),
{
    assert forall|a: (int, int), b: (int, int)|
        group_of(g, color, p).contains(a) && #[trigger] adjacent(a, b) && stone_of(g, color, b)
        implies #[trigger] group_of(g, color, p).contains(b) by {
        lemma_connected_step(g, color, p, a, b);
    }
}

/// Any two members of a group are joined by a walk inside the group.
pub proof fn lemma_group_walk(g: Grid, color: GoPlayer, seed: (int, int), p: (int, int), q: (int, int))
    requires
        group_of(g, color, seed).contains(p),
        group_of(g, color, seed).contains(q),
    ensures
        exists|path: Seq<(int, int)>| #[trigger] is_walk_within(group_of(g, color, seed), path, p, q),
{
    let s = group_of(g, color, seed);
    lemma_connected_symmetric(g, color, seed, p);
    lemma_connected_transitive(g, color, p, seed, q);
    let path = choose|path: Seq<(int, int)>| #[trigger] is_chain(g, color, path) && path[0] == p && path.last() == q;
    assert forall|i: int| 0 <= i < path.len() implies s.contains(#[trigger] path[i]) by {
        let prefix = path.subrange(0, i + 1);
        assert forall|k: int| 0 <= k < prefix.len() - 1 implies #[trigger] adjacent(prefix[k], prefix[k + 1]) by {
            assert(adjacent(path[k], path[k + 1]));
        }
        assert forall|k: int| 0 <= k < prefix.len() implies stone_of(g, color, #[trigger] prefix[k]) by {
            assert(stone_of(g, color, path[k]));
        }
        assert(is_chain(g, color, prefix));
        assert(connected(g, color, p, path[i]));
        lemma_connected_transitive(g, color, seed, p, path[i]);
    }
    assert(is_walk_within(s, path, p, q));
}

} // verus!
