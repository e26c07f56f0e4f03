use vstd::prelude::*;
use vstd::string::StrSliceExecFns;
use crate::board::{BoardState, MoveError, Player, TicTacToe, place_outcome};

verus! {

/// The pieces of `s` between occurrences of `d`, as `str::split` gives them:
/// an empty text gives one empty piece.
pub open spec fn split_on(s: Seq<char>, d: char) -> Seq<Seq<char>>
    decreases s.len(),
{
    if s.len() == 0 {
        seq![Seq::<char>::empty()]
    } else {
        let rest = split_on(s.drop_last(), d);
        if s.last() == d {
            rest.push(Seq::<char>::empty())
        } else {
            rest.update(rest.len() - 1, rest.last().push(s.last()))
        }
    }
}

pub open spec fn views(v: Seq<Vec<char>>) -> Seq<Seq<char>> {
    v.map_values(|x: Vec<char>| x@)
}

/// The symbol that a one-letter field names: `X` or `O`.
pub open spec fn parse_symbol(f: Seq<char>) -> Option<Player> {
    if f == seq!['X'] {
        Some(Player::X)
    } else if f == seq!['O'] {
        Some(Player::O)
    } else {
        None
    }
}

pub open spec fn is_digit(c: char) -> bool {
    '0' <= c <= '9'
}

pub open spec fn digit_value(c: char) -> nat {
    (c as u32 - '0' as u32) as nat
}

/// The number that a run of decimal digits spells.
pub open spec fn digits_value(d: Seq<char>) -> nat
    decreases d.len(),
{
    if d.len() == 0 {
        0
    } else {
        digits_value(d.drop_last()) * 10 + digit_value(d.last())
    }
}

/// A field without the `+` sign that may lead it.
pub open spec fn unsigned_digits(f: Seq<char>) -> Seq<char> {
    if f.len() > 0 && f[0] == '+' {
        f.drop_first()
    } else {
        f
    }
}

/// A coordinate field read as a machine-sized non-negative integer: an
/// optional `+` and at least one decimal digit, with a value that fits.
pub open spec fn parse_coord(f: Seq<char>) -> Option<nat> {
    let d = unsigned_digits(f);
    if d.len() > 0 && (forall|i: int| 0 <= i < d.len() ==> is_digit(#[trigger] d[i]))
        && digits_value(d) <= usize::MAX {
        Some(digits_value(d))
    } else {
        None
    }
}

/// One move token `S-r-c` read as (symbol, row, column).
pub open spec fn parse_token(t: Seq<char>) -> Result<(Player, nat, nat), MoveError> {
    let f = split_on(t, '-');
    if f.len() != 3 {
        Err(MoveError::MalformedMove)
    } else if parse_symbol(f[0]) is None {
        Err(MoveError::InvalidSymbol)
    } else if parse_coord(f[1]) is None || parse_coord(f[2]) is None {
        Err(MoveError::InvalidCoordinate)
    } else {
        Ok((parse_symbol(f[0]).unwrap(), parse_coord(f[1]).unwrap(), parse_coord(f[2]).unwrap()))
    }
}

/// Reads and plays the tokens in order; the first failure, in reading or in
/// placing, ends the decoding.
pub open spec fn decode_tokens(b: BoardState, toks: Seq<Seq<char>>) -> Result<
    BoardState,
    MoveError,
>
    decreases toks.len(),
{
    if toks.len() == 0 {
        Ok(b)
    } else {
        match parse_token(toks[0]) {
            Err(e) => Err(e),
            Ok(m) => match place_outcome(b, m.1 as int, m.2 as int, m.0) {
                Err(e) => Err(e),
                Ok(next) => decode_tokens(next, toks.drop_first()),
            },
        }
    }
}

/// The board that a move history `S-r-c_S-r-c_...` leads to from `b`. Every
/// piece between underscores is a token, so the empty text is one empty token
/// and is refused as malformed.
pub open spec fn decode_history(b: BoardState, s: Seq<char>) -> Result<BoardState, MoveError> {
    decode_tokens(b, split_on(s, '_'))
}

/// The characters of `s`.
pub fn chars_of(s: &str) -> (r: Vec<char>)
    ensures
        r@ == s@,
{
    let n = s.unicode_len();
    let mut out: Vec<char> = Vec::new();
    let mut i: usize = 0;
    while i < n
        invariant
            n == s@.len(),
            i <= n,
            out@ == s@.take(i as int),
        decreases n - i,
    {
        out.push(s.get_char(i));
        i += 1;
        assert(out@ =~= s@.take(i as int));
    }
    assert(out@ =~= s@);
    out
}

/// Splits `s` at every `d`.
pub fn split_chars(s: &Vec<char>, d: char) -> (r: Vec<Vec<char>>)
    ensures
        views(r@) == split_on(s@, d),
{
    let mut out: Vec<Vec<char>> = Vec::new();
    let mut cur: Vec<char> = Vec::new();
    let mut i: usize = 0;
    assert(s@.take(0) =~= Seq::<char>::empty());
    assert(views(out@).push(cur@) =~= split_on(s@.take(0), d));
    while i < s.len()
        invariant
            i <= s.len(),
            views(out@).push(cur@) == split_on(s@.take(i as int), d),
        decreases s.len() - i,
    {
        let ghost prev_out = out@;
        let ghost prev_cur = cur@;
        let ch = s[i];
        assert(s@.take(i + 1).drop_last() =~= s@.take(i as int));
        if ch == d {
            out.push(cur);
            cur = Vec::new();
            assert(views(out@) =~= views(prev_out).push(prev_cur));
            assert(views(out@).push(cur@) =~= views(prev_out).push(prev_cur).push(Seq::<char>::empty()));
        } else {
            cur.push(ch);
            assert(views(out@).push(cur@) =~= views(prev_out).push(prev_cur).update(
                views(prev_out).len() as int,
                prev_cur.push(ch),
            ));
        }
        i += 1;
    }
    assert(s@.take(s.len() as int) =~= s@);
    let ghost last_out = out@;
    out.push(cur);
    assert(views(out@) =~= views(last_out).push(out@.last()@));
    out
}

pub fn parse_symbol_field(f: &Vec<char>) -> (r: Option<Player>)
    ensures
        r == parse_symbol(f@),
{
    if f.len() == 1 && f[0] == 'X' {
        assert(f@ =~= seq!['X']);
        Some(Player::X)
    } else if f.len() == 1 && f[0] == 'O' {
        assert(f@ =~= seq!['O']);
        Some(Player::O)
    } else {
        assert(seq!['X'].len() == 1 && seq!['X'][0] == 'X');
        assert(seq!['O'].len() == 1 && seq!['O'][0] == 'O');
        None
    }
}

proof fn lemma_digits_prefix(d: Seq<char>, k: int)
    requires
        0 <= k <= d.len(),
    ensures
        digits_value(d.take(k)) <= digits_value(d),
    decreases d.len() - k,
{
    if k < d.len() {
        lemma_digits_prefix(d, k + 1);
        assert(d.take(k + 1).drop_last() =~= d.take(k));
    } else {
        assert(d.take(k) =~= d);
    }
}

/// Reads a coordinate field: an optional `+` and decimal digits whose value
/// fits in `usize`.
pub fn parse_coord_field(f: &Vec<char>) -> (r: Option<usize>)
    ensures
        match parse_coord(f@) {
            Some(v) => r == Some(v as usize),
            None => r is None,
        },
{
    let start: usize = if f.len() > 0 && f[0] == '+' {
        1
    } else {
        0
    };
    let ghost d = unsigned_digits(f@);
    assert(d =~= f@.subrange(start as int, f@.len() as int));
    if start == f.len() {
        assert(d.len() == 0);
        return None;
    }
    let mut value: usize = 0;
    let mut i: usize = start;
    while i < f.len()
        invariant
            start <= i <= f.len(),
            d == f@.subrange(start as int, f@.len() as int),
            d == unsigned_digits(f@),
            d.len() > 0,
            value == digits_value(d.take(i - start)),
            forall|j: int| 0 <= j < i - start ==> is_digit(#[trigger] d[j]),
        decreases f.len() - i,
    {
        let c = f[i];
        assert(d[i - start] == c);
        if !('0' <= c && c <= '9') {
            assert(!is_digit(d[i - start]));
            return None;
        }
        assert(d.take(i - start + 1).drop_last() =~= d.take(i - start));
        let digit = (c as u32 - '0' as u32) as usize;
        let next = match value.checked_mul(10) {
            Some(t) => t.checked_add(digit),
            None => None,
        };
        match next {
            Some(v) => {
                value = v;
            },
            None => {
                proof {
                    lemma_digits_prefix(d, i - start + 1);
                }
                return None;
            },
        }
        i += 1;
    }
    assert(d.take(d.len() as int) =~= d);
    Some(value)
}

/// Reads one move token `S-r-c`.
pub fn parse_token_chars(t: &Vec<char>) -> (r: Result<(Player, usize, usize), MoveError>)
    ensures
        match parse_token(t@) {
            Ok(m) => r == Ok::<(Player, usize, usize), MoveError>((m.0, m.1 as usize, m.2 as usize)),
            Err(e) => r == Err::<(Player, usize, usize), MoveError>(e),
        },
{
    let fields = split_chars(t, '-');
    proof {
        assert(views(fields@).len() == fields@.len());
    }
    if fields.len() != 3 {
        return Err(MoveError::MalformedMove);
    }
    proof {
        assert(views(fields@)[0] == fields@[0]@);
        assert(views(fields@)[1] == fields@[1]@);
        assert(views(fields@)[2] == fields@[2]@);
    }
    let symbol = match parse_symbol_field(&fields[0]) {
        Some(p) => p,
        None => {
            return Err(MoveError::InvalidSymbol);
        },
    };
    let row = parse_coord_field(&fields[1]);
    let col = parse_coord_field(&fields[2]);
    match (row, col) {
        (Some(r), Some(c)) => Ok((symbol, r, c)),
        _ => Err(MoveError::InvalidCoordinate),
    }
}

impl TicTacToe {
    /// Plays a move history `S-r-c_S-r-c_...` on this board, moves in the
    /// order given. Each token must have three fields, a symbol `X` or `O`,
    /// and two non-negative integer coordinates; each move must land in bounds
    /// on an empty cell. On the first failure its error is returned and the
    /// board is left exactly as it was.
    pub fn parse_moves(&mut self, moves_str: &str) -> (r: Result<(), MoveError>)
        requires
            old(self).wf(),
        ensures
            final(self).wf(),
            match decode_history(old(self)@, moves_str@) {
                Ok(b) => r is Ok && final(self)@ == b,
                Err(e) => r == Err::<(), MoveError>(e) && final(self)@ == old(self)@,
            },
    {
        let text = chars_of(moves_str);
        let tokens = split_chars(&text, '_');
        let ghost toks = views(tokens@);
        let mut work = self.duplicate();
        let mut i: usize = 0;
        assert(toks.subrange(0, toks.len() as int) =~= toks);
        assert(decode_history(self@, moves_str@) == decode_tokens(work@, toks));
        while i < tokens.len()
            invariant
                work.wf(),
                self.wf(),
                self@ == old(self)@,
                toks == views(tokens@),
                i <= tokens.len(),
                decode_history(self@, moves_str@) == decode_tokens(
                    work@,
                    toks.subrange(i as int, toks.len() as int),
                ),
            decreases tokens.len() - i,
        {
            let ghost rest = toks.subrange(i as int, toks.len() as int);
            assert(rest[0] == tokens@[i as int]@);
            assert(rest.drop_first() =~= toks.subrange(i + 1, toks.len() as int));
            let m = parse_token_chars(&tokens[i]);
            match m {
                Err(e) => {
                    return Err(e);
                },
                Ok((symbol, row, col)) => {
                    match work.place_at(row, col, symbol) {
                        Err(e) => {
                            return Err(e);
                        },
                        Ok(()) => {},
                    }
                },
            }
            i += 1;
        }
        assert(toks.subrange(toks.len() as int, toks.len() as int) =~= Seq::<Seq<char>>::empty());
        *self = work;
        Ok(())
    }
}

} // verus!
