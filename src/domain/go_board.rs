use vstd::prelude::*;

verus! {

/// The stones of a board, row by row; `None` marks an empty cell.
pub type GoBoardState = Vec<Vec<Option<GoPlayer>>>;

#[derive(Debug, Clone, Copy, PartialEq, Eq, Hash, Structural)]
pub enum GoPlayer {
    BLACK,
    WHITE,
}

/// The other colour.
pub open spec fn opponent(p: GoPlayer) -> GoPlayer {
    match p {
        GoPlayer::BLACK => GoPlayer::WHITE,
        GoPlayer::WHITE => GoPlayer::BLACK,
    }
}

/// A board state seen as a grid of cells.
pub open spec fn grid(state: GoBoardState) -> Seq<Seq<Option<GoPlayer>>> {
    state@.map_values(|row: Vec<Option<GoPlayer>>| row@)
}

/// Every row is as long as there are rows.
pub open spec fn is_square(g: Seq<Seq<Option<GoPlayer>>>) -> bool {
    forall|r: int| 0 <= r < g.len() ==> #[trigger] g[r].len() == g.len()
}

/// A grid whose cells are all empty.
pub open spec fn is_empty_grid(g: Seq<Seq<Option<GoPlayer>>>) -> bool {
    forall|r: int, c: int| 0 <= r < g.len() && 0 <= c < g[r].len() ==> #[trigger] g[r][c] is None
}

/// The grid with one cell replaced.
pub open spec fn with_cell(
    g: Seq<Seq<Option<GoPlayer>>>,
    r: int,
    c: int,
    v: Option<GoPlayer>,
) -> Seq<Seq<Option<GoPlayer>>> {
    g.update(r, g[r].update(c, v))
}

/// Two cells hold the same thing.
pub fn same_cell(a: Option<GoPlayer>, b: Option<GoPlayer>) -> (r: bool)
    ensures
        r == (a == b),
{
    match (a, b) {
        (None, None) => true,
        (Some(x), Some(y)) => x == y,
        _ => false,
    }
}

/// Compares two board states cell by cell.
pub fn states_equal(a: &GoBoardState, b: &GoBoardState) -> (r: bool)
    ensures
        r == (grid(*a) == grid(*b)),
{
    if a.len() != b.len() {
        assert(grid(*a).len() != grid(*b).len());
        return false;
    }
    let mut i: usize = 0;
    while i < a.len()
        invariant
            a.len() == b.len(),
            0 <= i <= a.len(),
            forall|k: int| 0 <= k < i ==> #[trigger] a@[k]@ == b@[k]@,
        decreases a.len() - i,
    {
        if a[i].len() != b[i].len() {
            assert(grid(*a)[i as int].len() != grid(*b)[i as int].len());
            return false;
        }
        let mut j: usize = 0;
        while j < a[i].len()
            invariant
                a.len() == b.len(),
                0 <= i < a.len(),
                a@[i as int].len() == b@[i as int].len(),
                0 <= j <= a@[i as int].len(),
                forall|k: int| 0 <= k < j ==> #[trigger] a@[i as int]@[k] == b@[i as int]@[k],
            decreases a@[i as int].len() - j,
        {
            if !same_cell(a[i][j], b[i][j]) {
                assert(grid(*a)[i as int][j as int] != grid(*b)[i as int][j as int]);
                return false;
            }
            j += 1;
        }
        assert(a@[i as int]@ =~= b@[i as int]@);
        i += 1;
    }
    assert(grid(*a) =~= grid(*b));
    true
}

#[derive(Debug, Clone, PartialEq)]
pub struct GoBoard {
    pub board_state: GoBoardState,
}

impl View for GoBoard {
    type V = Seq<Seq<Option<GoPlayer>>>;

    open spec fn view(&self) -> Seq<Seq<Option<GoPlayer>>> {
        grid(self.board_state)
    }
}

impl GoBoard {
    /// A square board whose side fits a coordinate.
    pub open spec fn wf(&self) -> bool {
        &&& is_square(self@)
        &&& self@.len() <= u32::MAX
    }

    /// The side length of the board.
    pub open spec fn size(&self) -> int {
        self@.len() as int
    }

    /// An empty board of `size` rows and `size` columns.
    pub fn new(size: u32) -> (board: Self)
        ensures
            board.wf(),
            board.size() == size,
            is_empty_grid(board@),
    {
        let mut board_state: GoBoardState = Vec::new();
        let mut i: u32 = 0;
        while i < size
            invariant
                0 <= i <= size,
                board_state@.len() == i,
                forall|r: int| 0 <= r < i ==> #[trigger] board_state@[r]@ == Seq::new(size as nat, |c: int| None::<GoPlayer>),
            decreases size - i,
        {
            let mut row: Vec<Option<GoPlayer>> = Vec::new();
            let mut j: u32 = 0;
            while j < size
                invariant
                    0 <= j <= size,
                    row@ == Seq::new(j as nat, |c: int| None::<GoPlayer>),
                decreases size - j,
            {
                row.push(None);
                proof {
                    assert(row@ =~= Seq::new((j + 1) as nat, |c: int| None::<GoPlayer>));
                }
                j += 1;
            }
            board_state.push(row);
            i += 1;
        }
        GoBoard { board_state }
    }

    /// Puts a stone on an empty cell; an occupied cell is left as it is.
    pub fn place(&mut self, row: u32, col: u32, piece: &GoPlayer) -> (placed: bool)
        requires
            old(self).wf(),
            row < old(self).size(),
            col < old(self).size(),
        ensures
            placed == (old(self)@[row as int][col as int] is None),
            placed ==> final(self)@ == with_cell(old(self)@, row as int, col as int, Some(*piece)),
            !placed ==> final(self)@ == old(self)@,
            final(self).wf(),
    {
        match self.board_state[row as usize][col as usize] {
            Some(_) => false,
            None => {
                self.set_cell(row as usize, col as usize, Some(*piece));
                true
            },
        }
    }

    /// Empties a cell, whatever it held.
    pub fn remove(&mut self, row: u32, col: u32)
        requires
            old(self).wf(),
            row < old(self).size(),
            col < old(self).size(),
        ensures
            final(self)@ == with_cell(old(self)@, row as int, col as int, None),
            final(self).wf(),
    {
        self.set_cell(row as usize, col as usize, None);
    }

    fn set_cell(&mut self, row: usize, col: usize, v: Option<GoPlayer>)
        requires
            old(self).wf(),
            row < old(self).size(),
            col < old(self).size(),
        ensures
            final(self)@ == with_cell(old(self)@, row as int, col as int, v),
            final(self).wf(),
    {
        let ghost g = self@;
        assert(g[row as int].len() == g.len());
        self.board_state[row][col] = v;
        assert(self@ =~= with_cell(g, row as int, col as int, v));
    }

    pub fn get_board_state(&self) -> (state: &GoBoardState)
        ensures
            *state == self.board_state,
    {
        &self.board_state
    }

    /// Empties every cell; the size stays.
    pub fn clear(&mut self)
        requires
            old(self).wf(),
        ensures
            final(self).wf(),
            final(self).size() == old(self).size(),
            is_empty_grid(final(self)@),
    {
        let n = self.board_state.len();
        let ghost g0 = self@;
        for row in 0..n
            invariant
                n == g0.len(),
                self.wf(),
                self.size() == n,
                forall|r: int, c: int|
                    0 <= r < row && 0 <= c < n ==> #[trigger] self@[r][c] is None,
        {
            for col in 0..n
                invariant
                    n == g0.len(),
                    0 <= row < n,
                    self.wf(),
                    self.size() == n,
                    forall|r: int, c: int|
                        0 <= r < row && 0 <= c < n ==> #[trigger] self@[r][c] is None,
                    forall|c: int| 0 <= c < col ==> #[trigger] self@[row as int][c] is None,
            {
                self.set_cell(row, col, None);
            }
        }
    }

    /// An independent copy of the cells.
    pub fn snapshot(&self) -> (state: GoBoardState)
        ensures
            grid(state) == self@,
    {
        copy_state(&self.board_state)
    }
}

/// An independent copy of a board state.
pub fn copy_state(source: &GoBoardState) -> (state: GoBoardState)
    ensures
        grid(state) == grid(*source),
{
    let mut state: GoBoardState = Vec::new();
    let mut i: usize = 0;
    while i < source.len()
        invariant
            0 <= i <= source@.len(),
            state@.len() == i,
            forall|r: int| 0 <= r < i ==> #[trigger] state@[r]@ == source@[r]@,
        decreases source@.len() - i,
    {
        let mut row: Vec<Option<GoPlayer>> = Vec::new();
        let mut j: usize = 0;
        while j < source[i].len()
            invariant
                0 <= i < source@.len(),
                0 <= j <= source@[i as int]@.len(),
                row@ == source@[i as int]@.subrange(0, j as int),
            decreases source@[i as int]@.len() - j,
        {
            row.push(source[i][j]);
            proof {
                assert(row@ =~= source@[i as int]@.subrange(0, j + 1));
            }
            j += 1;
        }
        assert(row@ =~= source@[i as int]@);
        state.push(row);
        i += 1;
    }
    assert(grid(state) =~= grid(*source));
    state
}

} // verus!
