//! Moves and their textual notation. A move is a pair of grid coordinates;
//! columns are lettered `A..E` left to right and rows are numbered `1..5` from
//! the top, so internal `y = 4` is rank `1`.

use vstd::prelude::*;

verus! {

/// A slide from `start` to `end`; coordinates are `(x, y)` with `0 <= x, y < 5`.
#[derive(Debug, Clone, Copy)]
pub struct TMove {
    pub start: (u8, u8),
    pub end: (u8, u8),
}

impl PartialEq for TMove {
    fn eq(&self, o: &TMove) -> (r: bool)
        ensures
            r == (*self == *o),
    {
        self.start.0 == o.start.0 && self.start.1 == o.start.1 && self.end.0 == o.end.0
            && self.end.1 == o.end.1
    }
}

impl vstd::std_specs::cmp::PartialEqSpecImpl for TMove {
    open spec fn obeys_eq_spec() -> bool {
        true
    }

    open spec fn eq_spec(&self, o: &TMove) -> bool {
        *self == *o
    }
}

impl Eq for TMove {}

/// Failure to parse a textual move.
#[derive(Debug, PartialEq, Eq, Structural, Clone, Copy)]
pub enum TMoveError {
    InvalidArgumentError,
}

impl TMoveError {
    /// Human-readable description of the error.
    pub fn describe(&self) -> (r: &'static str)
        ensures
            r@ == "invalid move syntax"@,
    {
        "invalid move syntax"
    }
}

/// Column letter of an `x` coordinate: `A..E` left to right.
pub open spec fn col_char(x: u8) -> char {
    if x == 0 {
        'A'
    } else if x == 1 {
        'B'
    } else if x == 2 {
        'C'
    } else if x == 3 {
        'D'
    } else {
        'E'
    }
}

/// Rank digit of a `y` coordinate: ranks are numbered `1..5` from the top
/// row, so `y = 0` is rank `5` and `y = 4` is rank `1`.
pub open spec fn row_char(y: u8) -> char {
    if y == 0 {
        '5'
    } else if y == 1 {
        '4'
    } else if y == 2 {
        '3'
    } else if y == 3 {
        '2'
    } else {
        '1'
    }
}

/// Inverse of `col_char` on the letters `A..E`.
pub open spec fn col_val(c: char) -> Option<u8> {
    if c == 'A' {
        Some(0u8)
    } else if c == 'B' {
        Some(1u8)
    } else if c == 'C' {
        Some(2u8)
    } else if c == 'D' {
        Some(3u8)
    } else if c == 'E' {
        Some(4u8)
    } else {
        None
    }
}

/// Inverse of `row_char` on the digits `1..5`.
pub open spec fn row_val(c: char) -> Option<u8> {
    if c == '1' {
        Some(4u8)
    } else if c == '2' {
        Some(3u8)
    } else if c == '3' {
        Some(2u8)
    } else if c == '4' {
        Some(1u8)
    } else if c == '5' {
        Some(0u8)
    } else {
        None
    }
}

/// Textual form of a move: column letter and rank digit of the source, a
/// separator, then column letter and rank digit of the destination.
pub open spec fn spec_move_string(m: TMove) -> Seq<char> {
    seq![
        col_char(m.start.0),
        row_char(m.start.1),
        '-',
        col_char(m.end.0),
        row_char(m.end.1),
    ]
}

/// Parse of a textual move: the string must be at least 5 characters, with
/// column letters at positions 0 and 3 and rank digits at positions 1 and 4;
/// the separator at position 2 is not validated.
pub open spec fn spec_parse_move(s: Seq<char>) -> Result<TMove, TMoveError> {
    if s.len() < 5 {
        Err(TMoveError::InvalidArgumentError)
    } else {
        match (col_val(s[0]), row_val(s[1]), col_val(s[3]), row_val(s[4])) {
            (Some(xs), Some(ys), Some(xe), Some(ye)) => Ok(
                TMove { start: (xs, ys), end: (xe, ye) },
            ),
            _ => Err(TMoveError::InvalidArgumentError),
        }
    }
}

/// A move formatted by `spec_move_string` parses back to itself.
pub proof fn lemma_move_round_trip(m: TMove)
    requires
        m.in_bounds(),
    ensures
        spec_parse_move(spec_move_string(m)) == Ok::<TMove, TMoveError>(m),
{
    let s = spec_move_string(m);
    assert(s.len() == 5);
    assert(s[0] == col_char(m.start.0));
    assert(s[1] == row_char(m.start.1));
    assert(s[3] == col_char(m.end.0));
    assert(s[4] == row_char(m.end.1));
}

fn col_str(x: u8) -> (r: &'static str)
    requires
        x < 5,
    ensures
        r@ =~= seq![col_char(x)],
{
    proof {
        reveal_strlit("A");
        reveal_strlit("B");
        reveal_strlit("C");
        reveal_strlit("D");
        reveal_strlit("E");
    }
    if x == 0 {
        "A"
    } else if x == 1 {
        "B"
    } else if x == 2 {
        "C"
    } else if x == 3 {
        "D"
    } else {
        "E"
    }
}

fn row_str(y: u8) -> (r: &'static str)
    requires
        y < 5,
    ensures
        r@ =~= seq![row_char(y)],
{
    proof {
        reveal_strlit("1");
        reveal_strlit("2");
        reveal_strlit("3");
        reveal_strlit("4");
        reveal_strlit("5");
    }
    if y == 0 {
        "5"
    } else if y == 1 {
        "4"
    } else if y == 2 {
        "3"
    } else if y == 3 {
        "2"
    } else {
        "1"
    }
}

fn col_num(c: char) -> (r: Option<u8>)
    ensures
        r == col_val(c),
{
    match c {
        'A' => Some(0u8),
        'B' => Some(1u8),
        'C' => Some(2u8),
        'D' => Some(3u8),
        'E' => Some(4u8),
        _ => None,
    }
}

fn row_num(c: char) -> (r: Option<u8>)
    ensures
        r == row_val(c),
{
    match c {
        '1' => Some(4u8),
        '2' => Some(3u8),
        '3' => Some(2u8),
        '4' => Some(1u8),
        '5' => Some(0u8),
        _ => None,
    }
}

impl TMove {
    /// All four coordinates are on the board.
    pub open spec fn in_bounds(self) -> bool {
        self.start.0 < 5 && self.start.1 < 5 && self.end.0 < 5 && self.end.1 < 5
    }

    /// Format the move in board notation, e.g. `A1-B2`.
    pub fn to_string(&self) -> (r: String)
        requires
            self.in_bounds(),
        ensures
            r@ == spec_move_string(*self),
    {
        let mut s = String::new();
        s.append(col_str(self.start.0));
        s.append(row_str(self.start.1));
        proof {
            reveal_strlit("-");
        }
        s.append("-");
        s.append(col_str(self.end.0));
        s.append(row_str(self.end.1));
        proof {
            assert(s@ =~= spec_move_string(*self));
        }
        s
    }

    /// Parse a move from board notation; positions 0 and 3 must hold column
    /// letters `A..E` and positions 1 and 4 rank digits `1..5`.
    pub fn from_str(s: &str) -> (r: Result<TMove, TMoveError>)
        ensures
            r == spec_parse_move(s@),
    {
        let len = s.unicode_len();
        if len < 5 {
            return Err(TMoveError::InvalidArgumentError);
        }

        let x_from = s.get_char(0);
        let y_from = s.get_char(1);
        let x_to = s.get_char(3);
        let y_to = s.get_char(4);

        let start = (col_num(x_from), row_num(y_from));
        let end = (col_num(x_to), row_num(y_to));

        match (start, end) {
            ((Some(x_start), Some(y_start)), (Some(x_end), Some(y_end))) => Ok(
                TMove { start: (x_start, y_start), end: (x_end, y_end) },
            ),
            _ => Err(TMoveError::InvalidArgumentError),
        }
    }
}

} // verus!
