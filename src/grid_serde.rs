//! The board's text format: 81 comma-separated cell tokens.

use vstd::prelude::*;
use vstd::string::StrSliceExecFns;

use crate::cell::{Cell, WaveFunction};
use crate::grid::{all_certain, digits_in_range, Grid};
use crate::location::CELL_COUNT;

verus! {

/// Relies on `String::from_iter`: the string of exactly these characters.
#[verifier::external_body]
pub(crate) fn string_of(chars: &Vec<char>) -> (r: String)
    ensures
        r@ == chars@,
{
    String::from_iter(chars.iter())
}

/// The characters of the string, in order.
fn chars_of(s: &str) -> (r: Vec<char>)
    ensures
        r@ == s@,
{
    let n = s.unicode_len();
    let mut r: Vec<char> = Vec::new();
    let mut i: usize = 0;
    while i < n
        invariant
            i <= n,
            n == s@.len(),
            r@ == s@.take(i as int),
        decreases n - i,
    {
        r.push(s.get_char(i));
        i = i + 1;
        assert(r@ =~= s@.take(i as int));
    }
    assert(s@.take(n as int) =~= s@);
    r
}

pub open spec fn digit_char(d: int) -> char {
    ('0' as int + d) as char
}

/// `d1,d2,...`: the digits, comma-separated.
pub open spec fn digits_text(ds: Seq<u8>) -> Seq<char>
    decreases ds.len(),
{
    if ds.len() == 0 {
        Seq::empty()
    } else if ds.len() == 1 {
        seq![digit_char(ds[0] as int)]
    } else {
        digits_text(ds.drop_last()) + seq![',', digit_char(ds.last() as int)]
    }
}

/// A cell's token: a bare digit, the possible digits in parentheses, or `()`.
pub open spec fn cell_text(c: Cell) -> Seq<char> {
    match c {
        Cell::Certain { digit } => seq![digit_char(digit as int)],
        Cell::Uncertain { wave } => seq!['('] + digits_text(wave.states_seq()) + seq![')'],
        Cell::Blank => seq!['(', ')'],
    }
}

/// The tokens of the cells, comma-separated.
pub open spec fn cells_text(cells: Seq<Cell>) -> Seq<char>
    decreases cells.len(),
{
    if cells.len() == 0 {
        Seq::empty()
    } else if cells.len() == 1 {
        cell_text(cells[0])
    } else {
        cells_text(cells.drop_last()) + seq![','] + cell_text(cells.last())
    }
}

/// Why a text is not a board.
#[derive(Clone, Copy, PartialEq, Eq, Debug, Structural)]
pub enum ParseError {
    /// `(` inside a cell descriptor.
    NestedOpen { index: usize },
    /// A token that may not follow the one before it.
    UnexpectedAfter { index: usize, token: char, after: char },
    /// `)` outside a cell descriptor.
    CloseOutside { index: usize },
    /// The digit `0`, which is no cell state.
    ZeroDigit { index: usize },
    /// A character that is no token.
    UnexpectedToken { index: usize, token: char },
    /// The text ends inside a cell descriptor.
    Unclosed,
    /// A token after the last cell.
    TrailingToken { index: usize, token: char },
    /// Fewer cells than the board has.
    TooFewCells { count: usize },
}

/// Where the parser stands after a prefix of the text.
pub struct ParseState {
    /// The descriptor being read, if any.
    pub in_cell: Option<WaveFunction>,
    /// The last character read.
    pub last: char,
    /// The cells read so far.
    pub cells: Seq<Cell>,
}

pub open spec fn is_space(c: char) -> bool {
    c == ' ' || c == '\t' || c == '\n'
}

pub open spec fn is_digit(c: char) -> bool {
    '0' <= c && c <= '9'
}

/// The state after reading `c`, the `i`-th character.
pub open spec fn step(st: ParseState, i: int, c: char) -> Result<ParseState, ParseError> {
    if st.cells.len() >= 81 {
        if is_space(c) {
            Ok(st)
        } else {
            Err(ParseError::TrailingToken { index: i as usize, token: c })
        }
    } else if c == '(' {
        if st.in_cell is Some {
            Err(ParseError::NestedOpen { index: i as usize })
        } else if !(st.last == ',' || is_space(st.last)) {
            Err(ParseError::UnexpectedAfter { index: i as usize, token: c, after: st.last })
        } else {
            Ok(ParseState { in_cell: Some(WaveFunction::empty_spec()), last: c, cells: st.cells })
        }
    } else if c == ')' {
        if st.last == ',' {
            Err(ParseError::UnexpectedAfter { index: i as usize, token: c, after: st.last })
        } else {
            match st.in_cell {
                None => Err(ParseError::CloseOutside { index: i as usize }),
                Some(w) => Ok(
                    ParseState {
                        in_cell: None,
                        last: c,
                        cells: st.cells.push(
                            if w.spec_entropy() == 0 {
                                Cell::Blank
                            } else {
                                Cell::Uncertain { wave: w }
                            },
                        ),
                    },
                ),
            }
        }
    } else if c == ',' {
        if st.last == ',' || st.last == '(' {
            Err(ParseError::UnexpectedAfter { index: i as usize, token: c, after: st.last })
        } else {
            Ok(ParseState { in_cell: st.in_cell, last: c, cells: st.cells })
        }
    } else if is_digit(c) {
        let d = c as int - '0' as int;
        if d == 0 {
            Err(ParseError::ZeroDigit { index: i as usize })
        } else {
            match st.in_cell {
                None => Ok(
                    ParseState { in_cell: None, last: c, cells: st.cells.push(Cell::Certain { digit: d as u8 }) },
                ),
                Some(w) => Ok(ParseState { in_cell: Some(w.with_spec(d)), last: c, cells: st.cells }),
            }
        }
    } else if is_space(c) {
        Ok(ParseState { in_cell: st.in_cell, last: c, cells: st.cells })
    } else {
        Err(ParseError::UnexpectedToken { index: i as usize, token: c })
    }
}

/// The state after the first `n` characters, or the first error.
pub open spec fn parse_prefix(text: Seq<char>, n: int) -> Result<ParseState, ParseError>
    decreases n,
{
    if n <= 0 {
        Ok(ParseState { in_cell: None, last: ',', cells: Seq::empty() })
    } else {
        match parse_prefix(text, n - 1) {
            Err(e) => Err(e),
            Ok(st) => step(st, n - 1, text[n - 1]),
        }
    }
}

/// The board a text describes, or why it describes none.
pub open spec fn parse_text(text: Seq<char>) -> Result<Seq<Cell>, ParseError> {
    match parse_prefix(text, text.len() as int) {
        Err(e) => Err(e),
        Ok(st) => if st.in_cell is Some {
            Err(ParseError::Unclosed)
        } else if st.cells.len() < 81 {
            Err(ParseError::TooFewCells { count: st.cells.len() as usize })
        } else {
            Ok(st.cells)
        },
    }
}

proof fn lemma_cells_text_step(cells: Seq<Cell>, n: int)
    requires
        1 <= n < cells.len(),
    ensures
        cells_text(cells.take(n + 1)) == cells_text(cells.take(n)) + seq![','] + cell_text(cells[n]),
{
    assert(cells.take(n + 1).drop_last() =~= cells.take(n));
}

proof fn lemma_digits_text_step(ds: Seq<u8>, n: int)
    requires
        1 <= n < ds.len(),
    ensures
        digits_text(ds.take(n + 1)) == digits_text(ds.take(n)) + seq![',', digit_char(ds[n] as int)],
{
    assert(ds.take(n + 1).drop_last() =~= ds.take(n));
}

/// Once the parser fails, it fails with the same error to the end.
proof fn lemma_error_sticks(text: Seq<char>, m: int, n: int)
    requires
        0 <= m <= n,
        parse_prefix(text, m) is Err,
    ensures
        parse_prefix(text, n) == parse_prefix(text, m),
    decreases n - m,
{
    if n > m {
        lemma_error_sticks(text, m, n - 1);
    }
}

/// The parser reads a prefix without looking past it.
proof fn lemma_parse_prefix_ext(a: Seq<char>, b: Seq<char>, m: int)
    requires
        0 <= m <= a.len(),
        m <= b.len(),
        forall|i: int| 0 <= i < m ==> a[i] == b[i],
    ensures
        parse_prefix(a, m) == parse_prefix(b, m),
    decreases m,
{
    if m > 0 {
        lemma_parse_prefix_ext(a, b, m - 1);
    }
}

proof fn lemma_round_trip_prefix(cells: Seq<Cell>, n: int)
    requires
        cells.len() == 81,
        all_certain(cells),
        digits_in_range(cells),
        1 <= n <= 81,
    ensures
        cells_text(cells.take(n)).len() == 2 * n - 1,
        parse_prefix(cells_text(cells.take(n)), 2 * n - 1) == Ok::<ParseState, ParseError>(
            ParseState { in_cell: None, last: digit_char(cells[n - 1]->digit as int), cells: cells.take(n) },
        ),
    decreases n,
{
    assert(cells[n - 1] is Certain);
    if n == 1 {
        let text = cells_text(cells.take(1));
        let c = digit_char(cells[0]->digit as int);
        assert(cells.take(1).len() == 1);
        assert(text == cell_text(cells.take(1)[0]));
        assert(text == seq![c]);
        let init = ParseState { in_cell: None, last: ',', cells: Seq::<Cell>::empty() };
        assert(parse_prefix(text, 0) == Ok::<ParseState, ParseError>(init));
        assert(parse_prefix(text, 1) == step(init, 0, c));
        assert(is_digit(c));
        assert(c as int - '0' as int == cells[0]->digit);
        assert(Seq::<Cell>::empty().push(cells[0]) =~= cells.take(1));
        assert(step(init, 0, c) == Ok::<ParseState, ParseError>(ParseState { in_cell: None, last: c, cells: cells.take(1) }));
    } else {
        lemma_round_trip_prefix(cells, n - 1);
        lemma_cells_text_step(cells, n - 1);
        let t1 = cells_text(cells.take(n - 1));
        let t2 = cells_text(cells.take(n));
        assert(t2 == t1 + seq![','] + seq![digit_char(cells[n - 1]->digit as int)]);
        lemma_parse_prefix_ext(t1, t2, 2 * n - 3);
        assert(t2[2 * n - 3] == ',');
        assert(t2[2 * n - 2] == digit_char(cells[n - 1]->digit as int));
        assert(cells[n - 2] is Certain);
        assert(cells.take(n - 1).push(cells[n - 1]) =~= cells.take(n));
        let c1 = digit_char(cells[n - 2]->digit as int);
        let c2 = digit_char(cells[n - 1]->digit as int);
        let st1 = ParseState { in_cell: None, last: c1, cells: cells.take(n - 1) };
        let st2 = ParseState { in_cell: None, last: ',', cells: cells.take(n - 1) };
        assert(parse_prefix(t2, 2 * n - 3) == Ok::<ParseState, ParseError>(st1));
        assert(is_digit(c1) && is_digit(c2));
        assert(step(st1, 2 * n - 3, ',') == Ok::<ParseState, ParseError>(st2));
        assert(parse_prefix(t2, 2 * n - 2) == Ok::<ParseState, ParseError>(st2));
        assert(c2 as int - '0' as int == cells[n - 1]->digit);
        assert(step(st2, 2 * n - 2, c2) == Ok::<ParseState, ParseError>(
            ParseState { in_cell: None, last: c2, cells: cells.take(n) }));
    }
}

/// Serializing a fully collapsed board and parsing the text gives the board
/// back.
pub proof fn lemma_round_trip(cells: Seq<Cell>)
    requires
        cells.len() == 81,
        all_certain(cells),
        digits_in_range(cells),
    ensures
        parse_text(cells_text(cells)) == Ok::<Seq<Cell>, ParseError>(cells),
{
    lemma_round_trip_prefix(cells, 81);
    assert(cells.take(81) =~= cells);
}

fn digit_to_char(d: u8) -> (c: char)
    requires
        d <= 9,
    ensures
        c == digit_char(d as int),
{
    (d + 48) as char
}

fn is_space_char(c: char) -> (r: bool)
    ensures
        r == is_space(c),
{
    c == ' ' || c == '\t' || c == '\n'
}

impl Grid {
    /// The board as 81 comma-separated tokens: a bare digit for a certain
    /// cell, the possible digits in parentheses for an uncertain one, `()`
    /// for a blank one.
    pub fn serialize_to_string(&self) -> (r: String)
        requires
            digits_in_range(self.cells@),
        ensures
            r@ == cells_text(self.cells@),
    {
        let mut out: Vec<char> = Vec::new();
        let mut i: usize = 0;
        while i < CELL_COUNT
            invariant
                i <= 81,
                digits_in_range(self.cells@),
                out@ == cells_text(self.cells@.take(i as int)),
            decreases 81 - i,
        {
            let ghost before = out@;
            if i > 0 {
                out.push(',');
            }
            let ghost lead = out@;
            match self.cells[i] {
                Cell::Certain { digit } => {
                    out.push(digit_to_char(digit));
                },
                Cell::Uncertain { wave } => {
                    out.push('(');
                    let states = wave.states();
                    proof {
                        wave.lemma_states();
                    }
                    let mut k: usize = 0;
                    while k < states.len()
                        invariant
                            k <= states@.len(),
                            states@ == wave.states_seq(),
                            forall|j: int| 0 <= j < states@.len() ==> #[trigger] states@[j] <= 9,
                            out@ == lead + seq!['('] + digits_text(states@.take(k as int)),
                        decreases states@.len() - k,
                    {
                        if k > 0 {
                            out.push(',');
                        }
                        out.push(digit_to_char(states[k]));
                        proof {
                            if k > 0 {
                                lemma_digits_text_step(states@, k as int);
                            } else {
                                assert(states@.take(1) =~= seq![states@[0]]);
                            }
                        }
                        k = k + 1;
                    }
                    out.push(')');
                    proof {
                        assert(states@.take(states@.len() as int) =~= states@);
                    }
                },
                Cell::Blank => {
                    out.push('(');
                    out.push(')');
                },
            }
            proof {
                if i > 0 {
                    lemma_cells_text_step(self.cells@, i as int);
                } else {
                    assert(self.cells@.take(1) =~= seq![self.cells@[0]]);
                }
                assert(out@ =~= cells_text(self.cells@.take(i + 1)));
            }
            i = i + 1;
        }
        proof {
            assert(self.cells@.take(81) =~= self.cells@);
        }
        string_of(&out)
    }

    /// Reads a board written as `serialize_to_string` writes it. Blanks,
    /// tabs and line breaks may stand between tokens, and a descriptor with no
    /// digit is a blank cell.
    pub fn deserialize_from_string(input: &str) -> (r: Result<Grid, ParseError>)
        ensures
            match parse_text(input@) {
                Ok(cells) => r matches Ok(g) && g.cells@ == cells,
                Err(e) => r == Err::<Grid, ParseError>(e),
            },
    {
        let chars = chars_of(input);
        let mut in_cell: Option<WaveFunction> = None;
        let mut last: char = ',';
        let mut cells: Vec<Cell> = Vec::new();
        let mut i: usize = 0;
        while i < chars.len()
            invariant
                i <= chars@.len(),
                chars@ == input@,
                parse_prefix(chars@, i as int) == Ok::<ParseState, ParseError>(
                    ParseState { in_cell, last, cells: cells@ },
                ),
                cells@.len() <= 81,
            decreases chars@.len() - i,
        {
            let ch = chars[i];
            let ghost st = ParseState { in_cell, last, cells: cells@ };
            if cells.len() >= CELL_COUNT {
                if !is_space_char(ch) {
                    proof {
                    lemma_error_sticks(chars@, i + 1, chars@.len() as int);
                }
                return Err(ParseError::TrailingToken { index: i, token: ch });
                }
            } else if ch == '(' {
                if in_cell.is_some() {
                    proof {
                    lemma_error_sticks(chars@, i + 1, chars@.len() as int);
                }
                return Err(ParseError::NestedOpen { index: i });
                }
                if !(last == ',' || is_space_char(last)) {
                    proof {
                    lemma_error_sticks(chars@, i + 1, chars@.len() as int);
                }
                return Err(ParseError::UnexpectedAfter { index: i, token: ch, after: last });
                }
                in_cell = Some(WaveFunction::new_min_entropy());
                last = ch;
            } else if ch == ')' {
                if last == ',' {
                    proof {
                    lemma_error_sticks(chars@, i + 1, chars@.len() as int);
                }
                return Err(ParseError::UnexpectedAfter { index: i, token: ch, after: last });
                }
                match in_cell {
                    None => {
                        proof {
                    lemma_error_sticks(chars@, i + 1, chars@.len() as int);
                }
                return Err(ParseError::CloseOutside { index: i });
                    },
                    Some(wave) => {
                        if wave.entropy() == 0 {
                            cells.push(Cell::Blank);
                        } else {
                            cells.push(Cell::Uncertain { wave });
                        }
                        in_cell = None;
                        last = ch;
                    },
                }
            } else if ch == ',' {
                if last == ',' || last == '(' {
                    proof {
                    lemma_error_sticks(chars@, i + 1, chars@.len() as int);
                }
                return Err(ParseError::UnexpectedAfter { index: i, token: ch, after: last });
                }
                last = ch;
            } else if '0' <= ch && ch <= '9' {
                let digit = (ch as u32 - '0' as u32) as u8;
                if digit == 0 {
                    proof {
                    lemma_error_sticks(chars@, i + 1, chars@.len() as int);
                }
                return Err(ParseError::ZeroDigit { index: i });
                }
                match in_cell {
                    None => {
                        cells.push(Cell::Certain { digit });
                    },
                    Some(wave) => {
                        let mut w = wave;
                        w.add_possibility(digit);
                        in_cell = Some(w);
                    },
                }
                last = ch;
            } else if is_space_char(ch) {
                last = ch;
            } else {
                proof {
                    lemma_error_sticks(chars@, i + 1, chars@.len() as int);
                }
                return Err(ParseError::UnexpectedToken { index: i, token: ch });
            }
            i = i + 1;
        }
        if in_cell.is_some() {
            return Err(ParseError::Unclosed);
        }
        if cells.len() < CELL_COUNT {
            return Err(ParseError::TooFewCells { count: cells.len() });
        }
        let mut board: [Cell; 81] = [Cell::Blank; 81];
        let mut k: usize = 0;
        while k < CELL_COUNT
            invariant
                k <= 81,
                cells@.len() == 81,
                forall|j: int| 0 <= j < k ==> #[trigger] board@[j] == cells@[j],
            decreases 81 - k,
        {
            board[k] = cells[k];
            k = k + 1;
        }
        proof {
            assert(board@ =~= cells@);
        }
        Ok(Grid { cells: board })
    }
}

} // verus!
