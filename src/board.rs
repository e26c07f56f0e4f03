use vstd::prelude::*;

verus! {

/// One of the two symbols that players place on the grid.
#[derive(Clone, Copy, Debug, PartialEq, Eq, Structural)]
pub enum Player {
    X,
    O,
}

impl Player {
    /// The symbol of the opposing player.
    pub open spec fn other(self) -> Player {
        match self {
            Player::X => Player::O,
            Player::O => Player::X,
        }
    }

    pub fn opponent(self) -> (r: Player)
        ensures
            r == self.other(),
    {
        match self {
            Player::X => Player::O,
            Player::O => Player::X,
        }
    }
}

/// Why a board could not be built or a move history could not be applied.
#[derive(Clone, Copy, Debug, PartialEq, Eq, Structural)]
pub enum MoveError {
    InvalidSize,
    MalformedMove,
    InvalidSymbol,
    InvalidCoordinate,
    OutOfBounds,
    CellOccupied,
    InvalidPlayer,
}

/// The mathematical content of a board: its side length, its cells in
/// row-major order, and whose turn it notionally is.
pub struct BoardState {
    pub size: nat,
    pub cells: Seq<Option<Player>>,
    pub turn: Player,
}

/// Number of empty cells in a row-major cell sequence.
pub open spec fn count_empty(cells: Seq<Option<Player>>) -> nat
    decreases cells.len(),
{
    if cells.len() == 0 {
        0
    } else {
        count_empty(cells.drop_last()) + if cells.last() is None {
            1nat
        } else {
            0nat
        }
    }
}

impl BoardState {
    pub open spec fn well_sized(self) -> bool {
        self.size > 0 && self.cells.len() == self.size * self.size
    }

    pub open spec fn in_bounds(self, r: int, c: int) -> bool {
        0 <= r < self.size && 0 <= c < self.size
    }

    pub open spec fn at(self, r: int, c: int) -> Option<Player> {
        self.cells[r * self.size + c]
    }

    /// The board with cell (r, c) set to `v`; the turn is unchanged.
    pub open spec fn with_cell(self, r: int, c: int, v: Option<Player>) -> BoardState {
        BoardState {
            size: self.size,
            cells: self.cells.update(r * self.size + c, v),
            turn: self.turn,
        }
    }

    pub open spec fn place(self, r: int, c: int, p: Player) -> BoardState {
        self.with_cell(r, c, Some(p))
    }

    pub open spec fn is_full(self) -> bool {
        forall|r: int, c: int| self.in_bounds(r, c) ==> self.at(r, c) is Some
    }

    /// Empty cells of row `r` among its first `c` columns, left to right.
    pub open spec fn empties_in_row(self, r: int, c: int) -> Seq<(int, int)>
        decreases c,
    {
        if c <= 0 {
            seq![]
        } else {
            let s = self.empties_in_row(r, c - 1);
            if self.at(r, c - 1) is None {
                s.push((r, c - 1))
            } else {
                s
            }
        }
    }

    /// Empty cells of the first `r` rows, in row-major order.
    pub open spec fn empties_before(self, r: int) -> Seq<(int, int)>
        decreases r,
    {
        if r <= 0 {
            seq![]
        } else {
            self.empties_before(r - 1) + self.empties_in_row(r - 1, self.size as int)
        }
    }

    /// All empty cells in row-major order: the order in which moves are tried.
    pub open spec fn empty_cells(self) -> Seq<(int, int)> {
        self.empties_before(self.size as int)
    }

    pub open spec fn empty_count(self) -> nat {
        count_empty(self.cells)
    }
}

/// A fresh board of side `n`: every cell empty, first player to move.
pub open spec fn empty_board(n: nat) -> BoardState {
    BoardState { size: n, cells: Seq::new(n * n, |i: int| None), turn: Player::X }
}

/// Coordinates as integers, for stating results over the board's model.
pub open spec fn coords(v: Seq<(usize, usize)>) -> Seq<(int, int)> {
    v.map_values(|m: (usize, usize)| (m.0 as int, m.1 as int))
}

pub proof fn lemma_cell_index(n: int, r: int, c: int)
    requires
        0 <= r < n,
        0 <= c < n,
    ensures
        0 <= r * n + c < n * n,
{
    assert(0 <= r * n + c < n * n) by (nonlinear_arith)
        requires
            0 <= r < n,
            0 <= c < n,
    ;
}

pub proof fn lemma_count_empty_bound(cells: Seq<Option<Player>>)
    ensures
        count_empty(cells) <= cells.len(),
    decreases cells.len(),
{
    if cells.len() > 0 {
        lemma_count_empty_bound(cells.drop_last());
    }
}

/// Filling an empty cell removes exactly one empty cell.
pub proof fn lemma_count_empty_fill(cells: Seq<Option<Player>>, i: int, v: Player)
    requires
        0 <= i < cells.len(),
        cells[i] is None,
    ensures
        count_empty(cells.update(i, Some(v))) + 1 == count_empty(cells),
    decreases cells.len(),
{
    let u = cells.update(i, Some(v));
    if i == cells.len() - 1 {
        assert(u.drop_last() =~= cells.drop_last());
    } else {
        assert(u.drop_last() =~= cells.drop_last().update(i, Some(v)));
        lemma_count_empty_fill(cells.drop_last(), i, v);
    }
}

/// Placing a symbol on an empty cell of a well-sized board leaves fewer empty cells.
pub proof fn lemma_place_shrinks(b: BoardState, r: int, c: int, p: Player)
    requires
        b.well_sized(),
        b.in_bounds(r, c),
        b.at(r, c) is None,
    ensures
        b.place(r, c, p).empty_count() + 1 == b.empty_count(),
        b.place(r, c, p).well_sized(),
{
    lemma_cell_index(b.size as int, r, c);
    lemma_count_empty_fill(b.cells, r * b.size + c, p);
}

proof fn lemma_row_members(b: BoardState, r: int, c: int)
    requires
        b.well_sized(),
        0 <= r < b.size,
        0 <= c <= b.size,
    ensures
        forall|k: int|
            0 <= k < b.empties_in_row(r, c).len() ==> {
                let m = #[trigger] b.empties_in_row(r, c)[k];
                m.0 == r && 0 <= m.1 < c && b.at(m.0, m.1) is None
            },
        forall|j: int| 0 <= j < c && b.at(r, j) is None ==> b.empties_in_row(r, c).contains((r, j)),
    decreases c,
{
    if c > 0 {
        lemma_row_members(b, r, c - 1);
        let s = b.empties_in_row(r, c - 1);
        if b.at(r, c - 1) is None {
            assert(s.push((r, c - 1))[s.len() as int] == (r, c - 1));
            assert forall|j: int| 0 <= j < c && b.at(r, j) is None implies b.empties_in_row(
                r,
                c,
            ).contains((r, j)) by {
                if j < c - 1 {
                    let k = choose|k: int| 0 <= k < s.len() && s[k] == (r, j);
                    assert(s.push((r, c - 1))[k] == (r, j));
                } else {
                    assert(s.push((r, c - 1))[s.len() as int] == (r, j));
                }
            }
        }
    }
}

/// Every listed empty cell is an in-bounds empty cell, and every in-bounds
/// empty cell is listed.
pub proof fn lemma_empty_cells(b: BoardState)
    requires
        b.well_sized(),
    ensures
        forall|k: int|
            0 <= k < b.empty_cells().len() ==> {
                let m = #[trigger] b.empty_cells()[k];
                b.in_bounds(m.0, m.1) && b.at(m.0, m.1) is None
            },
        forall|r: int, c: int|
            b.in_bounds(r, c) && b.at(r, c) is None ==> b.empty_cells().contains((r, c)),
{
    lemma_rows_members(b, b.size as int);
}

proof fn lemma_rows_members(b: BoardState, r: int)
    requires
        b.well_sized(),
        0 <= r <= b.size,
    ensures
        forall|k: int|
            0 <= k < b.empties_before(r).len() ==> {
                let m = #[trigger] b.empties_before(r)[k];
                b.in_bounds(m.0, m.1) && m.0 < r && b.at(m.0, m.1) is None
            },
        forall|i: int, c: int|
            0 <= i < r && 0 <= c < b.size && b.at(i, c) is None ==> b.empties_before(r).contains(
                (i, c),
            ),
    decreases r,
{
    if r > 0 {
        lemma_rows_members(b, r - 1);
        lemma_row_members(b, r - 1, b.size as int);
        let a = b.empties_before(r - 1);
        let t = b.empties_in_row(r - 1, b.size as int);
        assert forall|k: int| 0 <= k < b.empties_before(r).len() implies {
            let m = #[trigger] b.empties_before(r)[k];
            b.in_bounds(m.0, m.1) && m.0 < r && b.at(m.0, m.1) is None
        } by {
            if k < a.len() {
                assert((a + t)[k] == a[k]);
            } else {
                assert((a + t)[k] == t[k - a.len()]);
            }
        }
        assert forall|i: int, c: int|
            0 <= i < r && 0 <= c < b.size && b.at(i, c) is None implies b.empties_before(
                r,
            ).contains((i, c)) by {
            if i < r - 1 {
                let k = choose|k: int| 0 <= k < a.len() && a[k] == (i, c);
                assert((a + t)[k] == (i, c));
            } else {
                let k = choose|k: int| 0 <= k < t.len() && t[k] == (i, c);
                assert((a + t)[a.len() + k] == (i, c));
            }
        }
    }
}

/// A full board has no empty cell to offer, and a board with no empty cell to
/// offer is full.
pub proof fn lemma_full_iff_no_empty_cells(b: BoardState)
    requires
        b.well_sized(),
    ensures
        b.is_full() <==> b.empty_cells().len() == 0,
{
    lemma_empty_cells(b);
    if b.empty_cells().len() > 0 {
        let m = b.empty_cells()[0];
        assert(b.in_bounds(m.0, m.1) && b.at(m.0, m.1) is None);
    }
    if !b.is_full() {
        let (r, c) = choose|r: int, c: int| b.in_bounds(r, c) && b.at(r, c) is None;
        assert(b.empty_cells().contains((r, c)));
    }
}

/// An N×N tic-tac-toe board: a grid of cells, each empty or holding a symbol,
/// and the symbol that is notionally next to move.
pub struct TicTacToe {
    size: usize,
    cells: Vec<Option<Player>>,
    current_turn: Player,
}

impl View for TicTacToe {
    type V = BoardState;

    closed spec fn view(&self) -> BoardState {
        BoardState { size: self.size as nat, cells: self.cells@, turn: self.current_turn }
    }
}

impl TicTacToe {
    pub open spec fn wf(&self) -> bool {
        self@.well_sized() && self@.size * self@.size <= usize::MAX
    }

    /// Builds an empty `size`×`size` board with the first player to move.
    /// A zero size, or one whose grid cannot be addressed, is refused.
    pub fn new(size: usize) -> (r: Result<TicTacToe, MoveError>)
        ensures
            match r {
                Ok(t) => t.wf() && t@ == empty_board(size as nat),
                Err(e) => e == MoveError::InvalidSize && (size == 0 || size * size
                    > usize::MAX),
            },
            size > 0 && size * size <= usize::MAX ==> r is Ok,
    {
        if size == 0 {
            return Err(MoveError::InvalidSize);
        }
        let total = match size.checked_mul(size) {
            Some(t) => t,
            None => {
                return Err(MoveError::InvalidSize);
            },
        };
        let mut cells: Vec<Option<Player>> = Vec::new();
        let mut i: usize = 0;
        while i < total
            invariant
                i <= total,
                total == size * size,
                cells@ == Seq::new(i as nat, |k: int| None::<Player>),
            decreases total - i,
        {
            cells.push(None);
            i += 1;
            assert(cells@ =~= Seq::new(i as nat, |k: int| None::<Player>));
        }
        let t = TicTacToe { size, cells, current_turn: Player::X };
        assert(t@.cells =~= empty_board(size as nat).cells);
        Ok(t)
    }

    pub fn size(&self) -> (r: usize)
        ensures
            r == self@.size,
    {
        self.size
    }

    /// The symbol recorded as next to move.
    pub fn current_player(&self) -> (r: Player)
        ensures
            r == self@.turn,
    {
        self.current_turn
    }

    /// The content of cell (row, col).
    pub fn cell_at(&self, row: usize, col: usize) -> (r: Option<Player>)
        requires
            self.wf(),
            self@.in_bounds(row as int, col as int),
        ensures
            r == self@.at(row as int, col as int),
    {
        proof {
            lemma_cell_index(self.size as int, row as int, col as int);
        }
        self.cells[row * self.size + col]
    }

    /// A copy of this board.
    pub fn duplicate(&self) -> (r: TicTacToe)
        ensures
            r@ == self@,
    {
        let mut cells: Vec<Option<Player>> = Vec::new();
        let mut i: usize = 0;
        while i < self.cells.len()
            invariant
                i <= self.cells.len(),
                cells@ == self.cells@.take(i as int),
            decreases self.cells.len() - i,
        {
            cells.push(self.cells[i]);
            i += 1;
            assert(cells@ =~= self.cells@.take(i as int));
        }
        assert(cells@ =~= self.cells@);
        TicTacToe { size: self.size, cells, current_turn: self.current_turn }
    }

    /// Sets cell (row, col) to `v` without touching the turn; the search uses it
    /// to place a trial move and to take it back.
    pub fn set_cell(&mut self, row: usize, col: usize, v: Option<Player>)
        requires
            old(self).wf(),
            old(self)@.in_bounds(row as int, col as int),
        ensures
            final(self).wf(),
            final(self)@ == old(self)@.with_cell(row as int, col as int, v),
    {
        proof {
            lemma_cell_index(self.size as int, row as int, col as int);
        }
        let i = row * self.size + col;
        self.cells.set(i, v);
    }

    /// Places `symbol` at (row, col) and hands the turn to the other symbol.
    /// Out-of-range coordinates are refused before an occupied cell is.
    pub fn place_at(&mut self, row: usize, col: usize, symbol: Player) -> (r: Result<
        (),
        MoveError,
    >)
        requires
            old(self).wf(),
        ensures
            final(self).wf(),
            match place_outcome(old(self)@, row as int, col as int, symbol) {
                Ok(b) => r is Ok && final(self)@ == b,
                Err(e) => r == Err::<(), MoveError>(e) && final(self)@ == old(self)@,
            },
    {
        if row >= self.size || col >= self.size {
            return Err(MoveError::OutOfBounds);
        }
        if self.cell_at(row, col).is_some() {
            return Err(MoveError::CellOccupied);
        }
        self.set_cell(row, col, Some(symbol));
        self.current_turn = symbol.opponent();
        Ok(())
    }

    /// Places the symbol whose turn it is at (row, col), then passes the turn.
    pub fn make_move(&mut self, row: usize, col: usize) -> (r: Result<(), MoveError>)
        requires
            old(self).wf(),
        ensures
            final(self).wf(),
            match place_outcome(old(self)@, row as int, col as int, old(self)@.turn) {
                Ok(b) => r is Ok && final(self)@ == b,
                Err(e) => r == Err::<(), MoveError>(e) && final(self)@ == old(self)@,
            },
    {
        let p = self.current_turn;
        self.place_at(row, col, p)
    }

    /// True iff no empty cell remains.
    pub fn is_full(&self) -> (r: bool)
        requires
            self.wf(),
        ensures
            r == self@.is_full(),
    {
        let n = self.size;
        let mut row: usize = 0;
        while row < n
            invariant
                self.wf(),
                n == self@.size,
                row <= n,
                forall|i: int, c: int| 0 <= i < row && 0 <= c < n ==> self@.at(i, c) is Some,
            decreases n - row,
        {
            let mut col: usize = 0;
            while col < n
                invariant
                    self.wf(),
                    n == self@.size,
                    row < n,
                    col <= n,
                    forall|i: int, c: int| 0 <= i < row && 0 <= c < n ==> self@.at(i, c) is Some,
                    forall|c: int| 0 <= c < col ==> self@.at(row as int, c) is Some,
                decreases n - col,
            {
                if self.cell_at(row, col).is_none() {
                    assert(self@.in_bounds(row as int, col as int));
                    return false;
                }
                col += 1;
            }
            row += 1;
        }
        true
    }

    /// The empty cells in row-major order.
    pub fn available_moves(&self) -> (r: Vec<(usize, usize)>)
        requires
            self.wf(),
        ensures
            coords(r@) == self@.empty_cells(),
    {
        let n = self.size;
        let mut moves: Vec<(usize, usize)> = Vec::new();
        let mut row: usize = 0;
        while row < n
            invariant
                self.wf(),
                n == self@.size,
                row <= n,
                coords(moves@) == self@.empties_before(row as int),
            decreases n - row,
        {
            let mut col: usize = 0;
            while col < n
                invariant
                    self.wf(),
                    n == self@.size,
                    row < n,
                    col <= n,
                    coords(moves@) == self@.empties_before(row as int) + self@.empties_in_row(
                        row as int,
                        col as int,
                    ),
                decreases n - col,
            {
                if self.cell_at(row, col).is_none() {
                    let ghost before = moves@;
                    moves.push((row, col));
                    assert(coords(moves@) =~= coords(before).push((row as int, col as int)));
                }
                col += 1;
            }
            row += 1;
        }
        moves
    }
}

/// What placing `p` at (r, c) does: out-of-range coordinates are refused, then
/// occupied cells; otherwise the cell is filled and the turn goes to the other
/// symbol.
pub open spec fn place_outcome(b: BoardState, r: int, c: int, p: Player) -> Result<
    BoardState,
    MoveError,
> {
    if !b.in_bounds(r, c) {
        Err(MoveError::OutOfBounds)
    } else if b.at(r, c) is Some {
        Err(MoveError::CellOccupied)
    } else {
        Ok(BoardState { turn: p.other(), ..b.place(r, c, p) })
    }
}

} // verus!
