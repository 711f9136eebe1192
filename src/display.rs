//! The board drawn as plain text.

use vstd::prelude::*;

use crate::cell::{Cell, WaveFunction};
use crate::grid::{digits_in_range, Grid};
use crate::grid_serde::{digit_char, string_of};

verus! {

/// Which line of a cell's three shows a certain digit.
pub const CERTAIN_DIGIT_ROW_IN_BOX: usize = 1;

pub open spec fn spaces(n: int) -> Seq<char> {
    Seq::new(n as nat, |i: int| ' ')
}

/// The digit `d` when the wave allows it, else a blank.
pub open spec fn mark(w: WaveFunction, d: int) -> char {
    if w.allows(d) {
        digit_char(d)
    } else {
        ' '
    }
}

/// Line `row` (of three) of a cell, seven characters wide: a certain digit
/// stands alone in the middle line, an uncertain cell shows its possible
/// digits three per line, a blank cell shows nothing.
pub open spec fn cell_line(c: Cell, row: int) -> Seq<char> {
    match c {
        Cell::Certain { digit } => if row == 1 {
            spaces(3) + seq![digit_char(digit as int)] + spaces(3)
        } else {
            spaces(7)
        },
        Cell::Uncertain { wave } => seq![
            ' ',
            mark(wave, 3 * row + 1),
            ' ',
            mark(wave, 3 * row + 2),
            ' ',
            mark(wave, 3 * row + 3),
            ' ',
        ],
        Cell::Blank => spaces(7),
    }
}

/// The first `n` cells of board row `row`, line `line`, each followed by `|`,
/// with one more `|` before each box.
pub open spec fn row_cells_text(cells: Seq<Cell>, row: int, line: int, n: int) -> Seq<char>
    decreases n,
{
    if n <= 0 {
        Seq::empty()
    } else {
        row_cells_text(cells, row, line, n - 1) + (if (n - 1) % 3 == 0 {
            seq!['|']
        } else {
            Seq::empty()
        }) + cell_line(cells[row * 9 + n - 1], line) + seq!['|']
    }
}

/// Line `line` of board row `row`, with its line break.
pub open spec fn row_line(cells: Seq<Cell>, row: int, line: int) -> Seq<char> {
    seq!['|'] + row_cells_text(cells, row, line, 9) + seq!['|', '\n']
}

/// A full-width separator line drawn with `fill`.
pub open spec fn separator(fill: char) -> Seq<char> {
    seq!['|', '|'] + Seq::new(73, |i: int| fill) + seq!['|', '|', '\n']
}

/// The first `n` board rows, each as its three lines and the separator
/// under it: a double one under every third row.
pub open spec fn rows_text(cells: Seq<Cell>, n: int) -> Seq<char>
    decreases n,
{
    if n <= 0 {
        Seq::empty()
    } else {
        let r = n - 1;
        rows_text(cells, n - 1) + row_line(cells, r, 0) + row_line(cells, r, 1) + row_line(cells, r, 2)
            + separator(
            if (r + 1) % 3 == 0 {
                '='
            } else {
                '-'
            },
        )
    }
}

/// The whole board, framed.
pub open spec fn board_text(cells: Seq<Cell>) -> Seq<char> {
    separator('=') + rows_text(cells, 9)
}

fn digit_or_blank(wave: &WaveFunction, d: u8) -> (c: char)
    requires
        1 <= d <= 9,
    ensures
        c == mark(*wave, d as int),
{
    if wave.is_possible(d) {
        (d + 48) as char
    } else {
        ' '
    }
}

fn push_spaces(out: &mut Vec<char>, n: usize)
    ensures
        final(out)@ == old(out)@ + spaces(n as int),
{
    let mut k: usize = 0;
    while k < n
        invariant
            k <= n,
            out@ == old(out)@ + spaces(k as int),
        decreases n - k,
    {
        out.push(' ');
        k = k + 1;
        assert(out@ =~= old(out)@ + spaces(k as int));
    }
}

fn push_cell_line(out: &mut Vec<char>, cell: Cell, row_in_cell_index: usize)
    requires
        row_in_cell_index < 3,
        cell matches Cell::Certain { digit } ==> 1 <= digit <= 9,
    ensures
        final(out)@ == old(out)@ + cell_line(cell, row_in_cell_index as int),
{
    match cell {
        Cell::Certain { digit } => {
            if row_in_cell_index == CERTAIN_DIGIT_ROW_IN_BOX {
                push_spaces(out, 3);
                out.push((digit + 48) as char);
                push_spaces(out, 3);
            } else {
                push_spaces(out, 7);
            }
        },
        Cell::Uncertain { wave } => {
            let base = (row_in_cell_index * 3) as u8;
            out.push(' ');
            out.push(digit_or_blank(&wave, base + 1));
            out.push(' ');
            out.push(digit_or_blank(&wave, base + 2));
            out.push(' ');
            out.push(digit_or_blank(&wave, base + 3));
            out.push(' ');
        },
        Cell::Blank => {
            push_spaces(out, 7);
        },
    }
    assert(final(out)@ =~= old(out)@ + cell_line(cell, row_in_cell_index as int));
}

fn push_separator(out: &mut Vec<char>, fill: char)
    ensures
        final(out)@ == old(out)@ + separator(fill),
{
    out.push('|');
    out.push('|');
    let mut k: usize = 0;
    while k < 73
        invariant
            k <= 73,
            out@ == old(out)@ + seq!['|', '|'] + Seq::new(k as nat, |i: int| fill),
        decreases 73 - k,
    {
        out.push(fill);
        k = k + 1;
        assert(out@ =~= old(out)@ + seq!['|', '|'] + Seq::new(k as nat, |i: int| fill));
    }
    out.push('|');
    out.push('|');
    out.push('\n');
    assert(out@ =~= old(out)@ + separator(fill));
}

impl Cell {
    /// Line `row_in_cell_index` (of three) of the cell as drawn on the board.
    pub fn display_row(&self, row_in_cell_index: usize) -> (r: String)
        requires
            row_in_cell_index < 3,
            *self matches Cell::Certain { digit } ==> 1 <= digit <= 9,
        ensures
            r@ == cell_line(*self, row_in_cell_index as int),
    {
        let mut out: Vec<char> = Vec::new();
        push_cell_line(&mut out, *self, row_in_cell_index);
        assert(out@ =~= cell_line(*self, row_in_cell_index as int));
        string_of(&out)
    }
}

/// The double line drawn above the board and under every third row.
pub fn display_horizontal_box_separator() -> (r: String)
    ensures
        r@ == separator('='),
{
    let mut out: Vec<char> = Vec::new();
    push_separator(&mut out, '=');
    assert(out@ =~= separator('='));
    string_of(&out)
}

/// The single line drawn under the other rows.
pub fn display_horizontal_normal_separator() -> (r: String)
    ensures
        r@ == separator('-'),
{
    let mut out: Vec<char> = Vec::new();
    push_separator(&mut out, '-');
    assert(out@ =~= separator('-'));
    string_of(&out)
}

impl Grid {
    fn push_row_line(&self, out: &mut Vec<char>, row_index: usize, row_in_cell_index: usize)
        requires
            row_index < 9,
            row_in_cell_index < 3,
            digits_in_range(self.cells@),
        ensures
            final(out)@ == old(out)@ + row_line(self.cells@, row_index as int, row_in_cell_index as int),
    {
        out.push('|');
        let ghost start = out@;
        let mut k: usize = 0;
        while k < 9
            invariant
                k <= 9,
                row_index < 9,
                row_in_cell_index < 3,
                digits_in_range(self.cells@),
                out@ == start + row_cells_text(self.cells@, row_index as int, row_in_cell_index as int, k as int),
            decreases 9 - k,
        {
            if k % 3 == 0 {
                out.push('|');
            }
            let cell = self.cells[row_index * 9 + k];
            push_cell_line(out, cell, row_in_cell_index);
            out.push('|');
            k = k + 1;
            assert(out@ =~= start + row_cells_text(self.cells@, row_index as int, row_in_cell_index as int, k as int));
        }
        out.push('|');
        out.push('\n');
        assert(out@ =~= old(out)@ + row_line(self.cells@, row_index as int, row_in_cell_index as int));
    }

    /// Line `row_in_cell_index` (of three) of board row `row_index`.
    pub fn display_row(&self, row_index: usize, row_in_cell_index: usize) -> (r: String)
        requires
            row_index < 9,
            row_in_cell_index < 3,
            digits_in_range(self.cells@),
        ensures
            r@ == row_line(self.cells@, row_index as int, row_in_cell_index as int),
    {
        let mut out: Vec<char> = Vec::new();
        self.push_row_line(&mut out, row_index, row_in_cell_index);
        assert(out@ =~= row_line(self.cells@, row_index as int, row_in_cell_index as int));
        string_of(&out)
    }

    /// The whole board drawn as text: three lines per row, separators between
    /// rows, double ones around the boxes.
    pub fn display_text(&self) -> (r: String)
        requires
            digits_in_range(self.cells@),
        ensures
            r@ == board_text(self.cells@),
    {
        let mut out: Vec<char> = Vec::new();
        push_separator(&mut out, '=');
        let ghost start = out@;
        let mut row_index: usize = 0;
        while row_index < 9
            invariant
                row_index <= 9,
                digits_in_range(self.cells@),
                out@ == start + rows_text(self.cells@, row_index as int),
            decreases 9 - row_index,
        {
            let mut line: usize = 0;
            while line < 3
                invariant
                    line <= 3,
                    row_index < 9,
                    digits_in_range(self.cells@),
                    out@ == start + rows_text(self.cells@, row_index as int) + (if line >= 1 {
                        row_line(self.cells@, row_index as int, 0)
                    } else {
                        Seq::empty()
                    }) + (if line >= 2 {
                        row_line(self.cells@, row_index as int, 1)
                    } else {
                        Seq::empty()
                    }) + (if line >= 3 {
                        row_line(self.cells@, row_index as int, 2)
                    } else {
                        Seq::empty()
                    }),
                decreases 3 - line,
            {
                self.push_row_line(&mut out, row_index, line);
                line = line + 1;
                assert(out@ =~= start + rows_text(self.cells@, row_index as int) + (if line >= 1 {
                    row_line(self.cells@, row_index as int, 0)
                } else {
                    Seq::empty()
                }) + (if line >= 2 {
                    row_line(self.cells@, row_index as int, 1)
                } else {
                    Seq::empty()
                }) + (if line >= 3 {
                    row_line(self.cells@, row_index as int, 2)
                } else {
                    Seq::empty()
                }));
            }
            if (row_index + 1) % 3 == 0 {
                push_separator(&mut out, '=');
            } else {
                push_separator(&mut out, '-');
            }
            row_index = row_index + 1;
            assert(out@ =~= start + rows_text(self.cells@, row_index as int));
        }
        assert(out@ =~= board_text(self.cells@));
        string_of(&out)
    }
}

} // verus!
