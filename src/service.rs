use vstd::prelude::*;
use crate::board::{MoveError, Player, TicTacToe, empty_board};
use crate::decoder::{chars_of, decode_history, parse_symbol, parse_symbol_field};
use crate::search::search_result;

verus! {

/// Why no move is recommended: the request could not be read or applied, or
/// the position is already over.
#[derive(Clone, Copy, Debug, PartialEq, Eq, Structural)]
pub enum Refusal {
    Invalid(MoveError),
    NoMove,
}

/// The answer to a request for a board of side `size`, `playing` to move,
/// after the move history `moves`: the symbol to play with its row and column.
pub open spec fn recommendation(size: nat, playing: Seq<char>, moves: Seq<char>) -> Result<
    (Player, int, int),
    Refusal,
> {
    if size == 0 || size * size > usize::MAX {
        Err(Refusal::Invalid(MoveError::InvalidSize))
    } else {
        match decode_history(empty_board(size), moves) {
            Err(e) => Err(Refusal::Invalid(e)),
            Ok(b) => match parse_symbol(playing) {
                None => Err(Refusal::Invalid(MoveError::InvalidPlayer)),
                Some(p) => match search_result(b, p).1 {
                    None => Err(Refusal::NoMove),
                    Some(m) => Ok((p, m.0, m.1)),
                },
            },
        }
    }
}

pub open spec fn answer_view(r: Result<(Player, usize, usize), Refusal>) -> Result<
    (Player, int, int),
    Refusal,
> {
    match r {
        Ok(m) => Ok((m.0, m.1 as int, m.2 as int)),
        Err(e) => Err(e),
    }
}

/// Reads the symbol to move: `X` or `O`.
pub fn parse_player(s: &str) -> (r: Option<Player>)
    ensures
        r == parse_symbol(s@),
{
    let v = chars_of(s);
    parse_symbol_field(&v)
}

/// Builds the board, plays the history on it, reads the player to move and
/// searches for the move to make.
pub fn recommend(size: usize, playing: &str, moves: &str) -> (r: Result<
    (Player, usize, usize),
    Refusal,
>)
    ensures
        answer_view(r) == recommendation(size as nat, playing@, moves@),
{
    let mut board = match TicTacToe::new(size) {
        Ok(b) => b,
        Err(e) => {
            return Err(Refusal::Invalid(e));
        },
    };
    match board.parse_moves(moves) {
        Err(e) => {
            return Err(Refusal::Invalid(e));
        },
        Ok(()) => {},
    }
    let player = match parse_player(playing) {
        Some(p) => p,
        None => {
            return Err(Refusal::Invalid(MoveError::InvalidPlayer));
        },
    };
    let (_, best) = board.search(player);
    match best {
        Some((row, col)) => Ok((player, row, col)),
        None => Err(Refusal::NoMove),
    }
}

} // verus!
