use vstd::prelude::*;
use crate::board::{BoardState, Player, TicTacToe, empty_board};

verus! {

pub open spec fn row_of(b: BoardState, r: int, p: Player) -> bool {
    forall|c: int| 0 <= c < b.size ==> b.at(r, c) == Some(p)
}

pub open spec fn col_of(b: BoardState, c: int, p: Player) -> bool {
    forall|r: int| 0 <= r < b.size ==> b.at(r, c) == Some(p)
}

pub open spec fn diag_of(b: BoardState, p: Player) -> bool {
    forall|i: int| 0 <= i < b.size ==> b.at(i, i) == Some(p)
}

pub open spec fn anti_diag_of(b: BoardState, p: Player) -> bool {
    forall|i: int| 0 <= i < b.size ==> #[trigger] b.at(i, b.size - 1 - i) == Some(p)
}

/// `p` holds some complete row, column or diagonal.
pub open spec fn has_line(b: BoardState, p: Player) -> bool {
    (exists|r: int| 0 <= r < b.size && row_of(b, r, p)) || (exists|c: int|
        0 <= c < b.size && col_of(b, c, p)) || diag_of(b, p) || anti_diag_of(b, p)
}

/// The first complete line met when scanning row i, then column i, for
/// i from `i` upward, then the main and the anti-diagonal; X is tested before O
/// on each line.
pub open spec fn scan_lines(b: BoardState, i: int) -> Option<Player>
    decreases b.size - i,
{
    if i >= b.size {
        if diag_of(b, Player::X) {
            Some(Player::X)
        } else if diag_of(b, Player::O) {
            Some(Player::O)
        } else if anti_diag_of(b, Player::X) {
            Some(Player::X)
        } else if anti_diag_of(b, Player::O) {
            Some(Player::O)
        } else {
            None
        }
    } else if row_of(b, i, Player::X) {
        Some(Player::X)
    } else if row_of(b, i, Player::O) {
        Some(Player::O)
    } else if col_of(b, i, Player::X) {
        Some(Player::X)
    } else if col_of(b, i, Player::O) {
        Some(Player::O)
    } else {
        scan_lines(b, i + 1)
    }
}

pub open spec fn winner(b: BoardState) -> Option<Player> {
    scan_lines(b, 0)
}

/// +1 when X has won, -1 when O has, 0 otherwise.
pub open spec fn score(b: BoardState) -> int {
    match winner(b) {
        Some(Player::X) => 1,
        Some(Player::O) => -1,
        None => 0,
    }
}

proof fn lemma_scan_lines(b: BoardState, i: int)
    requires
        0 <= i <= b.size,
    ensures
        scan_lines(b, i) == Some(Player::X) ==> has_line(b, Player::X),
        scan_lines(b, i) == Some(Player::O) ==> has_line(b, Player::O),
        scan_lines(b, i) is None <==> (forall|j: int|
            i <= j < b.size ==> !row_of(b, j, Player::X) && !row_of(b, j, Player::O) && !col_of(
                b,
                j,
                Player::X,
            ) && !col_of(b, j, Player::O)) && !diag_of(b, Player::X) && !diag_of(b, Player::O)
            && !anti_diag_of(b, Player::X) && !anti_diag_of(b, Player::O),
    decreases b.size - i,
{
    if i < b.size {
        lemma_scan_lines(b, i + 1);
    }
}

/// X is reported the winner only when it holds a complete line, O likewise;
/// no winner is reported exactly when neither holds one; and when only one
/// symbol holds a complete line, that symbol is reported.
pub proof fn lemma_winner_and_lines(b: BoardState)
    ensures
        winner(b) == Some(Player::X) ==> has_line(b, Player::X),
        winner(b) == Some(Player::O) ==> has_line(b, Player::O),
        winner(b) is None <==> !has_line(b, Player::X) && !has_line(b, Player::O),
        has_line(b, Player::X) && !has_line(b, Player::O) ==> winner(b) == Some(Player::X),
        has_line(b, Player::O) && !has_line(b, Player::X) ==> winner(b) == Some(Player::O),
{
    lemma_scan_lines(b, 0);
}

/// The symbol that makes the k-th move of a game: X first, then in turn.
pub open spec fn mover(k: int) -> Player {
    if k % 2 == 0 {
        Player::X
    } else {
        Player::O
    }
}

/// The board after playing `moves` in turn on an empty board of side `n`.
pub open spec fn replay(n: nat, moves: Seq<(int, int)>) -> BoardState
    decreases moves.len(),
{
    if moves.len() == 0 {
        empty_board(n)
    } else {
        let m = moves.last();
        replay(n, moves.drop_last()).place(m.0, m.1, mover(moves.len() - 1))
    }
}

/// Every move lands on an empty in-bounds cell of a board on which nobody has
/// won yet.
pub open spec fn legal_game(n: nat, moves: Seq<(int, int)>) -> bool {
    forall|k: int|
        0 <= k < moves.len() ==> {
            let prev = #[trigger] replay(n, moves.take(k));
            prev.in_bounds(moves[k].0, moves[k].1) && prev.at(moves[k].0, moves[k].1) is None
                && !has_line(prev, Player::X) && !has_line(prev, Player::O)
        }
}

proof fn lemma_placed_line_owner(b: BoardState, r: int, c: int, p: Player, q: Player)
    requires
        q != p,
        b.well_sized(),
        has_line(b.place(r, c, p), q),
        0 <= r * b.size + c < b.cells.len(),
    ensures
        has_line(b, q),
{
    let a = b.place(r, c, p);
    let n = b.size;
    let k = r * n + c;
    assert forall|x: int, y: int| b.in_bounds(x, y) && a.at(x, y) == Some(q) implies b.at(x, y)
        == Some(q) by {
        crate::board::lemma_cell_index(n as int, x, y);
    }
    if exists|i: int| 0 <= i < n && row_of(a, i, q) {
        let i = choose|i: int| 0 <= i < n && row_of(a, i, q);
        assert(row_of(b, i, q));
    } else if exists|j: int| 0 <= j < n && col_of(a, j, q) {
        let j = choose|j: int| 0 <= j < n && col_of(a, j, q);
        assert(col_of(b, j, q));
    } else if diag_of(a, q) {
        assert(diag_of(b, q));
    } else {
        assert(anti_diag_of(b, q));
    }
}

/// In a game played by the rules, X and O never both hold a complete line.
pub proof fn lemma_legal_game_single_winner(n: nat, moves: Seq<(int, int)>)
    requires
        n > 0,
        legal_game(n, moves),
    ensures
        !(has_line(replay(n, moves), Player::X) && has_line(replay(n, moves), Player::O)),
    decreases moves.len(),
{
    if moves.len() > 0 {
        let k = moves.len() - 1;
        let prefix = moves.drop_last();
        assert(moves.take(k) =~= prefix);
        let prev = replay(n, moves.take(k));
        assert(!has_line(prev, Player::X) && !has_line(prev, Player::O));
        lemma_legal_prefix(n, moves);
        lemma_replay_size(n, prefix);
        let m = moves[k];
        crate::board::lemma_cell_index(n as int, m.0, m.1);
        let p = mover(k);
        if has_line(replay(n, moves), p.other()) {
            lemma_placed_line_owner(prev, m.0, m.1, p, p.other());
        }
    } else {
        lemma_empty_board_no_line(n);
    }
}

/// On a board reached by a game played by the rules, X is reported the winner
/// exactly when it holds a complete line, and O likewise.
pub proof fn lemma_legal_game_winner(n: nat, moves: Seq<(int, int)>)
    requires
        n > 0,
        legal_game(n, moves),
    ensures
        winner(replay(n, moves)) == Some(Player::X) <==> has_line(replay(n, moves), Player::X),
        winner(replay(n, moves)) == Some(Player::O) <==> has_line(replay(n, moves), Player::O),
{
    lemma_legal_game_single_winner(n, moves);
    lemma_winner_and_lines(replay(n, moves));
}

proof fn lemma_empty_board_no_line(n: nat)
    requires
        n > 0,
    ensures
        !has_line(empty_board(n), Player::X),
        !has_line(empty_board(n), Player::O),
{
    let b = empty_board(n);
    assert forall|r: int, c: int| b.in_bounds(r, c) implies #[trigger] b.at(r, c) is None by {
        crate::board::lemma_cell_index(n as int, r, c);
    }
    assert(b.at(0, 0) is None);
    assert(b.at(0, b.size - 1 - 0) is None);
    assert(!diag_of(b, Player::X) && !diag_of(b, Player::O));
    assert(!anti_diag_of(b, Player::X) && !anti_diag_of(b, Player::O));
    assert forall|r: int| 0 <= r < n implies !row_of(b, r, Player::X) && !row_of(b, r, Player::O)
        && !col_of(b, r, Player::X) && !col_of(b, r, Player::O) by {
        assert(b.at(r, 0) is None);
        assert(b.at(0, r) is None);
    }
}

proof fn lemma_legal_prefix(n: nat, moves: Seq<(int, int)>)
    requires
        moves.len() > 0,
        legal_game(n, moves),
    ensures
        legal_game(n, moves.drop_last()),
{
    let d = moves.drop_last();
    assert forall|k: int| 0 <= k < d.len() implies {
        let prev = #[trigger] replay(n, d.take(k));
        prev.in_bounds(d[k].0, d[k].1) && prev.at(d[k].0, d[k].1) is None && !has_line(
            prev,
            Player::X,
        ) && !has_line(prev, Player::O)
    } by {
        assert(d.take(k) =~= moves.take(k));
        assert(replay(n, moves.take(k)) == replay(n, d.take(k)));
    }
}

proof fn lemma_replay_size(n: nat, moves: Seq<(int, int)>)
    requires
        n > 0,
        legal_game(n, moves),
    ensures
        replay(n, moves).well_sized(),
        replay(n, moves).size == n,
    decreases moves.len(),
{
    if moves.len() > 0 {
        let d = moves.drop_last();
        lemma_legal_prefix(n, moves);
        lemma_replay_size(n, d);
        let k = moves.len() - 1;
        assert(moves.take(k) =~= d);
        let prev = replay(n, moves.take(k));
        assert(prev.in_bounds(moves[k].0, moves[k].1));
        crate::board::lemma_cell_index(n as int, moves[k].0, moves[k].1);
    } else {
        assert(empty_board(n).cells.len() == n * n);
    }
}

impl TicTacToe {
    fn row_filled_by(&self, r: usize, p: Player) -> (res: bool)
        requires
            self.wf(),
            r < self@.size,
        ensures
            res == row_of(self@, r as int, p),
    {
        let n = self.size();
        let mut c: usize = 0;
        while c < n
            invariant
                self.wf(),
                n == self@.size,
                r < n,
                c <= n,
                forall|j: int| 0 <= j < c ==> self@.at(r as int, j) == Some(p),
            decreases n - c,
        {
            if self.cell_at(r, c) != Some(p) {
                return false;
            }
            c += 1;
        }
        true
    }

    fn col_filled_by(&self, c: usize, p: Player) -> (res: bool)
        requires
            self.wf(),
            c < self@.size,
        ensures
            res == col_of(self@, c as int, p),
    {
        let n = self.size();
        let mut r: usize = 0;
        while r < n
            invariant
                self.wf(),
                n == self@.size,
                c < n,
                r <= n,
                forall|j: int| 0 <= j < r ==> self@.at(j, c as int) == Some(p),
            decreases n - r,
        {
            if self.cell_at(r, c) != Some(p) {
                return false;
            }
            r += 1;
        }
        true
    }

    fn diag_filled_by(&self, p: Player) -> (res: bool)
        requires
            self.wf(),
        ensures
            res == diag_of(self@, p),
    {
        let n = self.size();
        let mut i: usize = 0;
        while i < n
            invariant
                self.wf(),
                n == self@.size,
                i <= n,
                forall|j: int| 0 <= j < i ==> self@.at(j, j) == Some(p),
            decreases n - i,
        {
            if self.cell_at(i, i) != Some(p) {
                return false;
            }
            i += 1;
        }
        true
    }

    fn anti_diag_filled_by(&self, p: Player) -> (res: bool)
        requires
            self.wf(),
        ensures
            res == anti_diag_of(self@, p),
    {
        let n = self.size();
        let mut i: usize = 0;
        while i < n
            invariant
                self.wf(),
                n == self@.size,
                i <= n,
                forall|j: int| 0 <= j < i ==> #[trigger] self@.at(j, n - 1 - j) == Some(p),
            decreases n - i,
        {
            if self.cell_at(i, n - 1 - i) != Some(p) {
                return false;
            }
            i += 1;
        }
        true
    }

    /// The symbol holding a complete line, scanning rows and columns by index,
    /// then the two diagonals.
    pub fn check_winner(&self) -> (r: Option<Player>)
        requires
            self.wf(),
        ensures
            r == winner(self@),
    {
        let n = self.size();
        let mut i: usize = 0;
        while i < n
            invariant
                self.wf(),
                n == self@.size,
                i <= n,
                scan_lines(self@, 0) == scan_lines(self@, i as int),
            decreases n - i,
        {
            if self.row_filled_by(i, Player::X) {
                return Some(Player::X);
            }
            if self.row_filled_by(i, Player::O) {
                return Some(Player::O);
            }
            if self.col_filled_by(i, Player::X) {
                return Some(Player::X);
            }
            if self.col_filled_by(i, Player::O) {
                return Some(Player::O);
            }
            i += 1;
        }
        if self.diag_filled_by(Player::X) {
            return Some(Player::X);
        }
        if self.diag_filled_by(Player::O) {
            return Some(Player::O);
        }
        if self.anti_diag_filled_by(Player::X) {
            return Some(Player::X);
        }
        if self.anti_diag_filled_by(Player::O) {
            return Some(Player::O);
        }
        None
    }

    /// The board's score: +1 if X has won, -1 if O has, 0 otherwise.
    pub fn evaluate(&self) -> (r: i32)
        requires
            self.wf(),
        ensures
            r == score(self@),
    {
        match self.check_winner() {
            Some(Player::X) => 1,
            Some(Player::O) => -1,
            None => 0,
        }
    }
}

} // verus!
