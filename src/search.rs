use vstd::prelude::*;
use crate::board::{
    BoardState,
    Player,
    TicTacToe,
    coords,
    lemma_count_empty_bound,
    lemma_empty_cells,
    lemma_full_iff_no_empty_cells,
    lemma_place_shrinks,
};
use crate::outcome::score;

verus! {

/// A board on which the game is over: someone has won, or no cell is empty.
pub open spec fn terminal(b: BoardState) -> bool {
    score(b) != 0 || b.is_full()
}

/// The value for `p` of an empty cell `m`: the minimax value of the board with
/// `p` placed there and the opponent to move.
pub open spec fn child_value(b: BoardState, p: Player, m: (int, int)) -> int
    decreases b.empty_count(), 0int,
{
    if b.well_sized() && b.in_bounds(m.0, m.1) && b.at(m.0, m.1) is None {
        proof {
            lemma_place_shrinks(b, m.0, m.1, p);
        }
        minimax(b.place(m.0, m.1, p), p.other())
    } else {
        0
    }
}

/// The lowest value for X and the highest for O.
pub open spec fn worst(p: Player) -> int {
    if p == Player::X {
        -1
    } else {
        1
    }
}

/// The best value that `p` can reach by one of `moves`: the maximum over the
/// moves' values for X, the minimum for O.
pub open spec fn best_of(b: BoardState, p: Player, moves: Seq<(int, int)>) -> int
    decreases b.empty_count(), moves.len() + 1,
{
    if moves.len() == 0 {
        worst(p)
    } else if moves.len() == 1 {
        child_value(b, p, moves[0])
    } else {
        let prev = best_of(b, p, moves.drop_last());
        let v = child_value(b, p, moves.last());
        if p == Player::X {
            if v > prev {
                v
            } else {
                prev
            }
        } else {
            if v < prev {
                v
            } else {
                prev
            }
        }
    }
}

/// The game-theoretic value of `b` with `p` to move under perfect play:
/// +1 when X can force a win, -1 when O can, 0 otherwise.
pub open spec fn minimax(b: BoardState, p: Player) -> int
    decreases b.empty_count(), b.empty_cells().len() + 2,
{
    if !b.well_sized() || terminal(b) {
        score(b)
    } else {
        best_of(b, p, b.empty_cells())
    }
}

/// The first of `moves` whose value for `p` is `v`.
pub open spec fn first_reaching(b: BoardState, p: Player, moves: Seq<(int, int)>, v: int) -> Option<
    (int, int),
>
    decreases moves.len(),
{
    if moves.len() == 0 {
        None
    } else if child_value(b, p, moves[0]) == v {
        Some(moves[0])
    } else {
        first_reaching(b, p, moves.drop_first(), v)
    }
}

/// What the search reports for `b` with `p` to move: on a finished game its
/// score and no move; otherwise the minimax value and the first empty cell in
/// row-major order that reaches it.
pub open spec fn search_result(b: BoardState, p: Player) -> (int, Option<(int, int)>) {
    if terminal(b) {
        (score(b), None)
    } else {
        (minimax(b, p), first_reaching(b, p, b.empty_cells(), minimax(b, p)))
    }
}

pub open spec fn move_coords(m: Option<(usize, usize)>) -> Option<(int, int)> {
    match m {
        Some(c) => Some((c.0 as int, c.1 as int)),
        None => None,
    }
}

/// How a value `r` computed inside the window (alpha, beta) relates to the true
/// value `v`: exact inside the window, a bound on the side where it fell out.
pub open spec fn fail_soft(r: int, alpha: int, beta: int, v: int) -> bool {
    (r <= alpha ==> v <= r) && (r >= beta ==> v >= r) && (alpha < r < beta ==> v == r)
}

/// The value to start a scan from: below every score for X, above for O.
pub open spec fn scan_start(p: Player) -> int {
    if p == Player::X {
        i32::MIN as int
    } else {
        i32::MAX as int
    }
}

/// What the pruned search reports for `b` with `p` to move in the window
/// (alpha, beta): on a finished game its score and no move; otherwise the
/// outcome of scanning the empty cells in row-major order.
pub open spec fn pruned(b: BoardState, p: Player, alpha: int, beta: int) -> (int, Option<(int, int)>)
    decreases b.empty_count(), b.empty_cells().len() + 2,
{
    if !b.well_sized() || terminal(b) {
        (score(b), None)
    } else {
        pruned_scan(b, p, b.empty_cells(), 0, alpha, beta, scan_start(p), None)
    }
}

/// The pruned value of the empty cell `m` for `p`: the pruned search of the
/// board with `p` placed there, the opponent to move, in the same window.
pub open spec fn pruned_child(b: BoardState, p: Player, m: (int, int), alpha: int, beta: int) -> int
    decreases b.empty_count(), 0int,
{
    if b.well_sized() && b.in_bounds(m.0, m.1) && b.at(m.0, m.1) is None {
        proof {
            lemma_place_shrinks(b, m.0, m.1, p);
        }
        pruned(b.place(m.0, m.1, p), p.other(), alpha, beta).0
    } else {
        0
    }
}

/// The scan over `moves` from index `i`: each move's pruned value replaces the
/// kept value only when strictly better for `p`; X raises alpha, O lowers
/// beta, and the scan stops once beta is at most alpha.
pub open spec fn pruned_scan(
    b: BoardState,
    p: Player,
    moves: Seq<(int, int)>,
    i: int,
    alpha: int,
    beta: int,
    best: int,
    kept: Option<(int, int)>,
) -> (int, Option<(int, int)>)
    decreases b.empty_count(), moves.len() - i + 1,
{
    if i < 0 || i >= moves.len() {
        (best, kept)
    } else {
        let e = pruned_child(b, p, moves[i], alpha, beta);
        let improves = if p == Player::X {
            e > best
        } else {
            e < best
        };
        let best2 = if improves {
            e
        } else {
            best
        };
        let kept2 = if improves {
            Some(moves[i])
        } else {
            kept
        };
        let alpha2 = if p == Player::X && e > alpha {
            e
        } else {
            alpha
        };
        let beta2 = if p == Player::O && e < beta {
            e
        } else {
            beta
        };
        if beta2 <= alpha2 {
            (best2, kept2)
        } else {
            pruned_scan(b, p, moves, i + 1, alpha2, beta2, best2, kept2)
        }
    }
}

/// The result of a windowed search of `b` with `p` to move.
pub open spec fn window_result(
    b: BoardState,
    p: Player,
    alpha: int,
    beta: int,
    r: (i32, Option<(usize, usize)>),
) -> bool {
    &&& -1 <= r.0 <= 1
    &&& fail_soft(r.0 as int, alpha, beta, minimax(b, p))
    &&& terminal(b) ==> r.0 == score(b) && r.1 is None
    &&& !terminal(b) ==> {
        &&& r.1 is Some
        &&& b.empty_cells().contains(move_coords(r.1).unwrap())
        &&& alpha < r.0 < beta ==> first_reaching(b, p, b.empty_cells(), r.0 as int) == move_coords(
            r.1,
        )
    }
}

proof fn lemma_best_of(b: BoardState, p: Player, moves: Seq<(int, int)>)
    ensures
        forall|j: int|
            0 <= j < moves.len() ==> if p == Player::X {
                #[trigger] child_value(b, p, moves[j]) <= best_of(b, p, moves)
            } else {
                child_value(b, p, moves[j]) >= best_of(b, p, moves)
            },
        moves.len() > 0 ==> exists|j: int|
            0 <= j < moves.len() && #[trigger] child_value(b, p, moves[j]) == best_of(b, p, moves),
    decreases moves.len(),
{
    if moves.len() > 0 {
        let d = moves.drop_last();
        lemma_best_of(b, p, d);
        assert forall|j: int| 0 <= j < d.len() implies moves[j] == d[j] by {}
        let k = moves.len() - 1;
        if best_of(b, p, moves) == child_value(b, p, moves[k]) {
            assert(child_value(b, p, moves[k]) == best_of(b, p, moves));
        } else {
            assert(best_of(b, p, moves) == best_of(b, p, d));
            let j = choose|j: int| 0 <= j < d.len() && #[trigger] child_value(b, p, d[j]) == best_of(b, p, d);
            assert(moves[j] == d[j]);
            assert(child_value(b, p, moves[j]) == best_of(b, p, moves));
        }
    }
}

proof fn lemma_first_reaching(b: BoardState, p: Player, moves: Seq<(int, int)>, v: int, k: int)
    requires
        0 <= k < moves.len(),
        child_value(b, p, moves[k]) == v,
        forall|j: int| 0 <= j < k ==> #[trigger] child_value(b, p, moves[j]) != v,
    ensures
        first_reaching(b, p, moves, v) == Some(moves[k]),
    decreases k,
{
    if k > 0 {
        let d = moves.drop_first();
        assert(child_value(b, p, moves[0]) != v);
        assert forall|j: int| 0 <= j < k - 1 implies #[trigger] child_value(b, p, d[j]) != v by {
            assert(d[j] == moves[j + 1]);
        }
        lemma_first_reaching(b, p, d, v, k - 1);
    }
}

proof fn lemma_first_reaching_found(b: BoardState, p: Player, moves: Seq<(int, int)>, v: int, k: int)
    requires
        0 <= k < moves.len(),
        child_value(b, p, moves[k]) == v,
    ensures
        first_reaching(b, p, moves, v) is Some,
        moves.contains(first_reaching(b, p, moves, v).unwrap()),
    decreases k,
{
    if child_value(b, p, moves[0]) != v {
        let d = moves.drop_first();
        assert(d[k - 1] == moves[k]);
        lemma_first_reaching_found(b, p, d, v, k - 1);
        let m = first_reaching(b, p, d, v).unwrap();
        let j = choose|j: int| 0 <= j < d.len() && d[j] == m;
        assert(moves[j + 1] == m);
    } else {
        assert(moves[0] == first_reaching(b, p, moves, v).unwrap());
    }
}

/// On a game that is not over, the search recommends a cell, and that cell is
/// in bounds and empty.
pub proof fn lemma_search_move_is_free(b: BoardState, p: Player)
    requires
        b.well_sized(),
        !terminal(b),
    ensures
        search_result(b, p).1 is Some,
        b.in_bounds(search_result(b, p).1.unwrap().0, search_result(b, p).1.unwrap().1),
        b.at(search_result(b, p).1.unwrap().0, search_result(b, p).1.unwrap().1) is None,
{
    let ec = b.empty_cells();
    lemma_empty_cells(b);
    lemma_full_iff_no_empty_cells(b);
    lemma_best_of(b, p, ec);
    let v = minimax(b, p);
    let j = choose|j: int| 0 <= j < ec.len() && #[trigger] child_value(b, p, ec[j]) == best_of(b, p, ec);
    lemma_first_reaching_found(b, p, ec, v, j);
    let m = first_reaching(b, p, ec, v).unwrap();
    let k = choose|k: int| 0 <= k < ec.len() && ec[k] == m;
    assert(ec[k] == m);
}

/// A search leaves the board as it found it and reports `search_result` of
/// that board, and `minmax` reports `pruned` of that board and window, neither
/// of which depends on the depth; so searching again with the same player (and
/// window) reports the same value and the same move.
pub proof fn lemma_search_repeatable(
    before: BoardState,
    after: BoardState,
    p: Player,
    alpha: int,
    beta: int,
)
    requires
        after == before,
    ensures
        search_result(after, p) == search_result(before, p),
        pruned(after, p, alpha, beta) == pruned(before, p, alpha, beta),
{
}

impl TicTacToe {
    /// Minimax with alpha-beta pruning for `player` to move within the window
    /// (alpha, beta); `search` is the engine, which calls it with the widest
    /// window. The value and move are exactly `pruned` of the board and
    /// window, whatever the depth: a finished game gives its score and no
    /// move. When the value falls strictly inside the window it is the true
    /// minimax value and the move is the first empty cell in row-major order
    /// that reaches it; outside, the value bounds the true value on the side
    /// where it fell. The board is left as it was found.
    pub fn minmax(&mut self, depth: usize, player: Player, alpha: i32, beta: i32) -> (r: (
        i32,
        Option<(usize, usize)>,
    ))
        requires
            old(self).wf(),
            alpha < beta,
            depth + old(self)@.empty_count() <= usize::MAX,
        ensures
            final(self)@ == old(self)@,
            (r.0 as int, move_coords(r.1)) == pruned(old(self)@, player, alpha as int, beta as int),
            window_result(old(self)@, player, alpha as int, beta as int, r),
        decreases self@.empty_count(),
    {
        let score = self.evaluate();
        if score == 1 || score == -1 || self.is_full() {
            return (score, None);
        }
        if player == Player::X {
            let ghost b = self@;
            let ghost ec = b.empty_cells();
            let ghost alpha_in = alpha as int;
            let moves = self.available_moves();
            proof {
                lemma_empty_cells(b);
                lemma_full_iff_no_empty_cells(b);
            }
            let mut alpha = alpha;
            let mut best_move: Option<(usize, usize)> = None;
            let mut max_eval: i32 = i32::MIN;
            let mut cut = false;
            let mut i: usize = 0;
            let ghost mut bi: int = 0;
            // Until the cutoff, every move tried is worth at most max_eval to X,
            // the kept move is the first to reach it, and alpha is raised to it.
            while i < moves.len() && !cut
                invariant
                    self.wf(),
                    self@ == b,
                    old(self)@ == b,
                    b.well_sized(),
                    !terminal(b),
                    coords(moves@) == ec,
                    ec == b.empty_cells(),
                    moves.len() > 0,
                    depth + b.empty_count() <= usize::MAX,
                    0 <= i <= moves.len(),
                    0 <= bi <= i,
                    alpha_in <= alpha < beta || cut,
                    i == 0 ==> max_eval == i32::MIN && best_move is None && alpha == alpha_in && !cut,
                    i > 0 ==> -1 <= max_eval <= 1 && 0 <= bi < i && best_move == Some(moves@[bi]),
                    pruned(b, Player::X, alpha_in, beta as int) == if cut {
                        (max_eval as int, move_coords(best_move))
                    } else {
                        pruned_scan(b, Player::X, ec, i as int, alpha as int, beta as int, max_eval as int, move_coords(best_move))
                    },
                    i > 0 ==> alpha == (if max_eval > alpha_in {
                        max_eval as int
                    } else {
                        alpha_in
                    }),
                    cut <==> i > 0 && max_eval >= beta,
                    !cut ==> forall|j: int| 0 <= j < i ==> #[trigger] child_value(b, Player::X, ec[j]) <= max_eval,
                    forall|j: int| 0 <= j < bi ==> #[trigger] child_value(b, Player::X, ec[j]) < max_eval,
                    i > 0 && !cut && max_eval > alpha_in ==> child_value(b, Player::X, ec[bi]) == max_eval,
                    cut ==> child_value(b, Player::X, ec[bi]) >= max_eval,
                decreases moves.len() - i,
            {
                let (row, col) = moves[i];
                proof {
                    assert(coords(moves@)[i as int] == (row as int, col as int));
                    assert(ec[i as int] == (row as int, col as int));
                    lemma_empty_cells(b);
                    lemma_place_shrinks(b, row as int, col as int, Player::X);
                }
                self.set_cell(row, col, Some(Player::X));
                proof {
                    crate::board::lemma_cell_index(b.size as int, row as int, col as int);
                    assert(self@ == b.place(row as int, col as int, Player::X));
                    assert(self@.empty_count() < b.empty_count());
                }
                let (eval, _) = self.minmax(depth + 1, Player::O, alpha, beta);
                self.set_cell(row, col, None);
                proof {
                    assert(self@.cells =~= b.cells);
                    assert(pruned_child(b, Player::X, ec[i as int], alpha as int, beta as int) == eval);
                    assert(child_value(b, Player::X, ec[i as int]) == minimax(
                        b.place(row as int, col as int, Player::X),
                        Player::O,
                    ));
                }
                if eval > max_eval {
                    max_eval = eval;
                    best_move = Some((row, col));
                    proof {
                        bi = i as int;
                    }
                }
                if eval > alpha {
                    alpha = eval;
                }
                if beta <= alpha {
                    cut = true;
                }
                i += 1;
            }
            proof {
                lemma_best_of(b, Player::X, ec);
                let v = minimax(b, Player::X);
                assert(v == best_of(b, Player::X, ec));
                assert(ec.contains(ec[bi]));
                if !cut {
                    let j = choose|j: int| 0 <= j < ec.len() && #[trigger] child_value(b, Player::X, ec[j]) == v;
                    assert(v <= max_eval);
                    if max_eval > alpha_in {
                        lemma_first_reaching(b, Player::X, ec, max_eval as int, bi);
                    }
                }
            }
            return (max_eval, best_move);
        } else {
            let ghost b = self@;
            let ghost ec = b.empty_cells();
            let ghost beta_in = beta as int;
            let moves = self.available_moves();
            proof {
                lemma_empty_cells(b);
                lemma_full_iff_no_empty_cells(b);
            }
            let mut beta = beta;
            let mut best_move: Option<(usize, usize)> = None;
            let mut min_eval: i32 = i32::MAX;
            let mut cut = false;
            let mut i: usize = 0;
            let ghost mut bi: int = 0;
            // Until the cutoff, every move tried is worth at least min_eval to O,
            // the kept move is the first to reach it, and beta is lowered to it.
            while i < moves.len() && !cut
                invariant
                    self.wf(),
                    self@ == b,
                    old(self)@ == b,
                    b.well_sized(),
                    !terminal(b),
                    coords(moves@) == ec,
                    ec == b.empty_cells(),
                    moves.len() > 0,
                    depth + b.empty_count() <= usize::MAX,
                    0 <= i <= moves.len(),
                    0 <= bi <= i,
                    alpha < beta <= beta_in || cut,
                    i == 0 ==> min_eval == i32::MAX && best_move is None && beta == beta_in && !cut,
                    i > 0 ==> -1 <= min_eval <= 1 && 0 <= bi < i && best_move == Some(moves@[bi]),
                    pruned(b, Player::O, alpha as int, beta_in) == if cut {
                        (min_eval as int, move_coords(best_move))
                    } else {
                        pruned_scan(b, Player::O, ec, i as int, alpha as int, beta as int, min_eval as int, move_coords(best_move))
                    },
                    i > 0 ==> beta == (if min_eval < beta_in {
                        min_eval as int
                    } else {
                        beta_in
                    }),
                    cut <==> i > 0 && min_eval <= alpha,
                    !cut ==> forall|j: int| 0 <= j < i ==> #[trigger] child_value(b, Player::O, ec[j]) >= min_eval,
                    forall|j: int| 0 <= j < bi ==> #[trigger] child_value(b, Player::O, ec[j]) > min_eval,
                    i > 0 && !cut && min_eval < beta_in ==> child_value(b, Player::O, ec[bi]) == min_eval,
                    cut ==> child_value(b, Player::O, ec[bi]) <= min_eval,
                decreases moves.len() - i,
            {
                let (row, col) = moves[i];
                proof {
                    assert(coords(moves@)[i as int] == (row as int, col as int));
                    assert(ec[i as int] == (row as int, col as int));
                    lemma_empty_cells(b);
                    lemma_place_shrinks(b, row as int, col as int, Player::O);
                }
                self.set_cell(row, col, Some(Player::O));
                proof {
                    crate::board::lemma_cell_index(b.size as int, row as int, col as int);
                    assert(self@ == b.place(row as int, col as int, Player::O));
                    assert(self@.empty_count() < b.empty_count());
                }
                let (eval, _) = self.minmax(depth + 1, Player::X, alpha, beta);
                self.set_cell(row, col, None);
                proof {
                    assert(self@.cells =~= b.cells);
                    assert(pruned_child(b, Player::O, ec[i as int], alpha as int, beta as int) == eval);
                    assert(child_value(b, Player::O, ec[i as int]) == minimax(
                        b.place(row as int, col as int, Player::O),
                        Player::X,
                    ));
                }
                if eval < min_eval {
                    min_eval = eval;
                    best_move = Some((row, col));
                    proof {
                        bi = i as int;
                    }
                }
                if eval < beta {
                    beta = eval;
                }
                if beta <= alpha {
                    cut = true;
                }
                i += 1;
            }
            proof {
                lemma_best_of(b, Player::O, ec);
                let v = minimax(b, Player::O);
                assert(v == best_of(b, Player::O, ec));
                assert(ec.contains(ec[bi]));
                if !cut {
                    let j = choose|j: int| 0 <= j < ec.len() && #[trigger] child_value(b, Player::O, ec[j]) == v;
                    assert(v >= min_eval);
                    if min_eval < beta_in {
                        lemma_first_reaching(b, Player::O, ec, min_eval as int, bi);
                    }
                }
            }
            return (min_eval, best_move);
        }
    }

    /// The value of the position for `player` to move under perfect play, and
    /// the first empty cell in row-major order that achieves it; no cell when
    /// the game is already over. The board is left as it was found.
    pub fn search(&mut self, player: Player) -> (r: (i32, Option<(usize, usize)>))
        requires
            old(self).wf(),
        ensures
            final(self)@ == old(self)@,
            r.0 == search_result(old(self)@, player).0,
            move_coords(r.1) == search_result(old(self)@, player).1,
    {
        proof {
            lemma_count_empty_bound(self@.cells);
        }
        self.minmax(0, player, i32::MIN, i32::MAX)
    }
}

} // verus!
