//! Rows, columns, boxes and sectors of the board, and walks over them.

use vstd::prelude::*;

use crate::location::{Location, Vec2};

verus! {

pub open spec fn loc(row: int, column: int) -> Location {
    Location { row: row as u8, column: column as u8 }
}

pub open spec fn same_box(a: Location, b: Location) -> bool {
    a.row / 3 == b.row / 3 && a.column / 3 == b.column / 3
}

/// `l` shares a row, a column or a box with `c` (`c` itself included).
pub open spec fn in_sector(c: Location, l: Location) -> bool {
    l.row == c.row || l.column == c.column || same_box(c, l)
}

/// The `j`-th (`j` in `0..2`) of the two offsets in `0..3` other than `x`.
pub open spec fn other_offset(x: int, j: int) -> int {
    if j < x {
        j
    } else {
        j + 1
    }
}

/// The `i`-th cell of the sector of `c`: its row left to right, then its
/// column top to bottom without the cell already given by the row, then the
/// four cells of its box outside both, row by row.
pub open spec fn sector_at(c: Location, i: int) -> Location {
    if i < 9 {
        loc(c.row as int, i)
    } else if i < 17 {
        let k = i - 9;
        loc(
            if k < c.row {
                k
            } else {
                k + 1
            },
            c.column as int,
        )
    } else {
        let k = i - 17;
        loc(
            c.row / 3 * 3 + other_offset((c.row % 3) as int, k / 2),
            c.column / 3 * 3 + other_offset((c.column % 3) as int, k % 2),
        )
    }
}

/// Count of cells in a sector, the center included.
pub const SECTOR_LEN: usize = 21;

pub open spec fn sector_seq(c: Location) -> Seq<Location> {
    Seq::new(21, |i: int| sector_at(c, i))
}

/// The cells of row `r`, left to right.
pub open spec fn row_seq(r: int) -> Seq<Location> {
    Seq::new(9, |k: int| loc(r, k))
}

/// The cells of column `c`, top to bottom.
pub open spec fn column_seq(c: int) -> Seq<Location> {
    Seq::new(9, |k: int| loc(k, c))
}

/// The cells of the box whose top-left cell is `t`, row by row.
pub open spec fn box_seq(t: Location) -> Seq<Location> {
    Seq::new(9, |k: int| loc(t.row + k / 3, t.column + k % 3))
}

/// Top-left cell of box `b`, boxes counted row by row.
pub open spec fn box_corner(b: int) -> Location {
    loc(b / 3 * 3, b % 3 * 3)
}

/// The top-left cell of the box that holds `c`.
pub open spec fn corner_of(c: Location) -> Location {
    loc(c.row / 3 * 3, c.column / 3 * 3)
}

proof fn lemma_sector_at_valid(c: Location, i: int)
    requires
        c.is_valid(),
        0 <= i < 21,
    ensures
        sector_at(c, i).is_valid(),
        in_sector(c, sector_at(c, i)),
        i < 9 ==> sector_at(c, i).row == c.row,
        9 <= i < 17 ==> sector_at(c, i).row != c.row && sector_at(c, i).column == c.column,
        17 <= i ==> sector_at(c, i).row != c.row && sector_at(c, i).column != c.column,
{
}

/// Sector iteration yields each cell of the row, the column and the box of
/// `c` exactly once, and no other cell.
pub proof fn lemma_sector_exact(c: Location)
    requires
        c.is_valid(),
    ensures
        sector_seq(c).len() == 21,
        sector_seq(c).no_duplicates(),
        forall|i: int| 0 <= i < 21 ==> (#[trigger] sector_seq(c)[i]).is_valid(),
        forall|l: Location| l.is_valid() ==> (sector_seq(c).contains(l) <==> in_sector(c, l)),
{
    let s = sector_seq(c);
    assert forall|i: int, j: int| 0 <= i < s.len() && 0 <= j < s.len() && i != j implies s[i]
        != s[j] by {
        lemma_sector_at_valid(c, i);
        lemma_sector_at_valid(c, j);
    }
    assert forall|i: int| 0 <= i < 21 implies (#[trigger] s[i]).is_valid() by {
        lemma_sector_at_valid(c, i);
    }
    assert forall|l: Location| l.is_valid() implies (s.contains(l) <==> in_sector(c, l)) by {
        if s.contains(l) {
            let i = choose|i: int| 0 <= i < s.len() && s[i] == l;
            lemma_sector_at_valid(c, i);
        }
        if in_sector(c, l) {
            let i = sector_position(c, l);
            assert(s[i] == l);
        }
    }
}

/// Where `l` stands in the sector of `c`.
pub open spec fn sector_position(c: Location, l: Location) -> int {
    if l.row == c.row {
        l.column as int
    } else if l.column == c.column {
        9 + if l.row < c.row {
            l.row as int
        } else {
            l.row - 1
        }
    } else {
        let jr = if l.row % 3 < c.row % 3 {
            (l.row % 3) as int
        } else {
            l.row % 3 - 1
        };
        let jc = if l.column % 3 < c.column % 3 {
            (l.column % 3) as int
        } else {
            l.column % 3 - 1
        };
        17 + 2 * jr + jc
    }
}

/// The `i`-th cell of the sector of `center`.
pub fn sector_cell(center: Location, i: usize) -> (r: Location)
    requires
        center.is_valid(),
        i < SECTOR_LEN,
    ensures
        r == sector_at(center, i as int),
        r.is_valid(),
        in_sector(center, r),
{
    proof {
        lemma_sector_at_valid(center, i as int);
    }
    if i < 9 {
        Location { row: center.row, column: i as u8 }
    } else if i < 17 {
        let k = (i - 9) as u8;
        Location { row: if k < center.row { k } else { k + 1 }, column: center.column }
    } else {
        let k = (i - 17) as u8;
        let jr = k / 2;
        let jc = k % 2;
        let xr = center.row % 3;
        let xc = center.column % 3;
        Location {
            row: center.row / 3 * 3 + if jr < xr { jr } else { jr + 1 },
            column: center.column / 3 * 3 + if jc < xc { jc } else { jc + 1 },
        }
    }
}

/// Walks the sector of a cell in the order of `sector_seq`.
pub struct SectorIterator {
    center: Location,
    position: usize,
}

impl SectorIterator {
    pub closed spec fn wf(&self) -> bool {
        self.center.is_valid() && self.position <= 21
    }

    pub closed spec fn remaining(&self) -> Seq<Location> {
        sector_seq(self.center).skip(self.position as int)
    }

    pub fn new(center: Location) -> (r: SectorIterator)
        requires
            center.is_valid(),
        ensures
            r.wf(),
            r.remaining() == sector_seq(center),
    {
        let r = SectorIterator { center, position: 0 };
        assert(r.remaining() =~= sector_seq(center));
        r
    }

    pub fn next(&mut self) -> (r: Option<Location>)
        requires
            old(self).wf(),
        ensures
            final(self).wf(),
            old(self).remaining().len() == 0 ==> r is None && final(self).remaining()
                == old(self).remaining(),
            old(self).remaining().len() > 0 ==> r == Some(old(self).remaining()[0])
                && final(self).remaining() == old(self).remaining().drop_first(),
    {
        if self.position < SECTOR_LEN {
            let l = sector_cell(self.center, self.position);
            self.position = self.position + 1;
            assert(self.remaining() =~= old(self).remaining().drop_first());
            Some(l)
        } else {
            None
        }
    }
}

/// Walks a row left to right from a given cell.
pub struct RowIterator {
    current: Option<Location>,
}

impl RowIterator {
    pub closed spec fn wf(&self) -> bool {
        self.current matches Some(l) ==> l.is_valid()
    }

    pub closed spec fn remaining(&self) -> Seq<Location> {
        match self.current {
            Some(l) => row_seq(l.row as int).skip(l.column as int),
            None => Seq::empty(),
        }
    }

    /// The whole row of `center`.
    pub fn new(center: Location) -> (r: RowIterator)
        requires
            center.is_valid(),
        ensures
            r.wf(),
            r.remaining() == row_seq(center.row as int),
    {
        let r = RowIterator { current: Some(Location { row: center.row, column: 0 }) };
        assert(r.remaining() =~= row_seq(center.row as int));
        r
    }

    pub fn next(&mut self) -> (r: Option<Location>)
        requires
            old(self).wf(),
        ensures
            final(self).wf(),
            old(self).remaining().len() == 0 ==> r is None && final(self).remaining()
                == old(self).remaining(),
            old(self).remaining().len() > 0 ==> r == Some(old(self).remaining()[0])
                && final(self).remaining() == old(self).remaining().drop_first(),
    {
        match self.current {
            Some(current) => {
                self.current = current.right();
                assert(self.remaining() =~= old(self).remaining().drop_first());
                Some(current)
            },
            None => None,
        }
    }
}

/// Walks a column top to bottom from a given cell.
pub struct ColumnIterator {
    current: Option<Location>,
}

impl ColumnIterator {
    pub closed spec fn wf(&self) -> bool {
        self.current matches Some(l) ==> l.is_valid()
    }

    pub closed spec fn remaining(&self) -> Seq<Location> {
        match self.current {
            Some(l) => column_seq(l.column as int).skip(l.row as int),
            None => Seq::empty(),
        }
    }

    /// The whole column of `center`.
    pub fn new(center: Location) -> (r: ColumnIterator)
        requires
            center.is_valid(),
        ensures
            r.wf(),
            r.remaining() == column_seq(center.column as int),
    {
        let r = ColumnIterator { current: Some(Location { row: 0, column: center.column }) };
        assert(r.remaining() =~= column_seq(center.column as int));
        r
    }

    pub fn next(&mut self) -> (r: Option<Location>)
        requires
            old(self).wf(),
        ensures
            final(self).wf(),
            old(self).remaining().len() == 0 ==> r is None && final(self).remaining()
                == old(self).remaining(),
            old(self).remaining().len() > 0 ==> r == Some(old(self).remaining()[0])
                && final(self).remaining() == old(self).remaining().drop_first(),
    {
        match self.current {
            Some(current) => {
                self.current = current.below();
                assert(self.remaining() =~= old(self).remaining().drop_first());
                Some(current)
            },
            None => None,
        }
    }
}

/// Walks a box row by row.
pub struct BoxIterator {
    top_left: Location,
    row: u8,
    column: u8,
    done: bool,
}

impl BoxIterator {
    pub closed spec fn wf(&self) -> bool {
        &&& self.top_left.row % 3 == 0
        &&& self.top_left.column % 3 == 0
        &&& self.top_left.is_valid()
        &&& self.row < 3
        &&& self.column < 3
    }

    pub closed spec fn remaining(&self) -> Seq<Location> {
        if self.done {
            Seq::empty()
        } else {
            box_seq(self.top_left).skip(self.row * 3 + self.column)
        }
    }

    /// The whole box of `center`.
    pub fn new(center: Location) -> (r: BoxIterator)
        requires
            center.is_valid(),
        ensures
            r.wf(),
            r.remaining() == box_seq(corner_of(center)),
    {
        let r = BoxIterator {
            top_left: Location { row: center.row / 3 * 3, column: center.column / 3 * 3 },
            row: 0,
            column: 0,
            done: false,
        };
        assert(r.remaining() =~= box_seq(corner_of(center)));
        r
    }

    pub fn next(&mut self) -> (r: Option<Location>)
        requires
            old(self).wf(),
        ensures
            final(self).wf(),
            old(self).remaining().len() == 0 ==> r is None && final(self).remaining()
                == old(self).remaining(),
            old(self).remaining().len() > 0 ==> r == Some(old(self).remaining()[0])
                && final(self).remaining() == old(self).remaining().drop_first(),
    {
        if self.done {
            return None;
        }
        let current = Location {
            row: self.top_left.row + self.row,
            column: self.top_left.column + self.column,
        };
        if self.column == 2 {
            if self.row == 2 {
                self.done = true;
            } else {
                self.row = self.row + 1;
                self.column = 0;
            }
        } else {
            self.column = self.column + 1;
        }
        assert(self.remaining() =~= old(self).remaining().drop_first());
        Some(current)
    }
}

/// Hands out the rows of the board, top to bottom.
pub struct RowsIterator {
    current: Option<(Location, RowIterator)>,
}

impl RowsIterator {
    pub closed spec fn wf(&self) -> bool {
        self.current matches Some((l, it)) ==> l.is_valid() && l.column == 0 && it.wf()
            && it.remaining() == row_seq(l.row as int)
    }

    /// The rows still to come, each as its cells.
    pub closed spec fn remaining(&self) -> Seq<Seq<Location>> {
        match self.current {
            Some((l, _)) => Seq::new((9 - l.row) as nat, |k: int| row_seq(l.row + k)),
            None => Seq::empty(),
        }
    }

    pub fn new() -> (r: RowsIterator)
        ensures
            r.wf(),
            r.remaining() == Seq::new(9, |k: int| row_seq(k)),
    {
        let start = Location { row: 0, column: 0 };
        let r = RowsIterator { current: Some((start, RowIterator::new(start))) };
        assert(r.remaining() =~= Seq::new(9, |k: int| row_seq(k)));
        r
    }

    pub fn next(&mut self) -> (r: Option<RowIterator>)
        requires
            old(self).wf(),
        ensures
            final(self).wf(),
            old(self).remaining().len() == 0 ==> r is None && final(self).remaining()
                == old(self).remaining(),
            old(self).remaining().len() > 0 ==> (r matches Some(it) && it.wf() && it.remaining()
                == old(self).remaining()[0]) && final(self).remaining() == old(
                self,
            ).remaining().drop_first(),
    {
        match self.current.take() {
            Some((leftmost, row_iter)) => {
                self.current =
                match leftmost.below() {
                    Some(next) => Some((next, RowIterator::new(next))),
                    None => None,
                };
                assert(self.remaining() =~= old(self).remaining().drop_first());
                Some(row_iter)
            },
            None => None,
        }
    }
}

/// Hands out the columns of the board, left to right.
pub struct ColumnsIterator {
    current: Option<(Location, ColumnIterator)>,
}

impl ColumnsIterator {
    pub closed spec fn wf(&self) -> bool {
        self.current matches Some((l, it)) ==> l.is_valid() && l.row == 0 && it.wf()
            && it.remaining() == column_seq(l.column as int)
    }

    /// The columns still to come, each as its cells.
    pub closed spec fn remaining(&self) -> Seq<Seq<Location>> {
        match self.current {
            Some((l, _)) => Seq::new((9 - l.column) as nat, |k: int| column_seq(l.column + k)),
            None => Seq::empty(),
        }
    }

    pub fn new() -> (r: ColumnsIterator)
        ensures
            r.wf(),
            r.remaining() == Seq::new(9, |k: int| column_seq(k)),
    {
        let start = Location { row: 0, column: 0 };
        let r = ColumnsIterator { current: Some((start, ColumnIterator::new(start))) };
        assert(r.remaining() =~= Seq::new(9, |k: int| column_seq(k)));
        r
    }

    pub fn next(&mut self) -> (r: Option<ColumnIterator>)
        requires
            old(self).wf(),
        ensures
            final(self).wf(),
            old(self).remaining().len() == 0 ==> r is None && final(self).remaining()
                == old(self).remaining(),
            old(self).remaining().len() > 0 ==> (r matches Some(it) && it.wf() && it.remaining()
                == old(self).remaining()[0]) && final(self).remaining() == old(
                self,
            ).remaining().drop_first(),
    {
        match self.current.take() {
            Some((topmost, column_iter)) => {
                self.current =
                match topmost.right() {
                    Some(next) => Some((next, ColumnIterator::new(next))),
                    None => None,
                };
                assert(self.remaining() =~= old(self).remaining().drop_first());
                Some(column_iter)
            },
            None => None,
        }
    }
}

/// Hands out the boxes of the board, row by row.
pub struct BoxesIterator {
    current: Option<(Location, BoxIterator)>,
}

impl BoxesIterator {
    pub closed spec fn wf(&self) -> bool {
        self.current matches Some((l, it)) ==> l.is_valid() && l.row % 3 == 0 && l.column % 3
            == 0 && it.wf() && it.remaining() == box_seq(l)
    }

    /// The boxes still to come, each as its cells.
    pub closed spec fn remaining(&self) -> Seq<Seq<Location>> {
        match self.current {
            Some((l, _)) => {
                let first = l.row + l.column / 3;
                Seq::new((9 - first) as nat, |k: int| box_seq(box_corner(first + k)))
            },
            None => Seq::empty(),
        }
    }

    pub fn new() -> (r: BoxesIterator)
        ensures
            r.wf(),
            r.remaining() == Seq::new(9, |k: int| box_seq(box_corner(k))),
    {
        let topleft = Location { row: 0, column: 0 };
        let r = BoxesIterator { current: Some((topleft, BoxIterator::new(topleft))) };
        assert(r.remaining() =~= Seq::new(9, |k: int| box_seq(box_corner(k))));
        r
    }

    pub fn next(&mut self) -> (r: Option<BoxIterator>)
        requires
            old(self).wf(),
        ensures
            final(self).wf(),
            old(self).remaining().len() == 0 ==> r is None && final(self).remaining()
                == old(self).remaining(),
            old(self).remaining().len() > 0 ==> (r matches Some(it) && it.wf() && it.remaining()
                == old(self).remaining()[0]) && final(self).remaining() == old(
                self,
            ).remaining().drop_first(),
    {
        match self.current.take() {
            Some((topleft, box_iter)) => {
                self.current =
                match topleft.add(Vec2 { rows: 0, columns: 3 }) {
                    Some(next) => Some((next, BoxIterator::new(next))),
                    None => match topleft.add(Vec2 { rows: 3, columns: -6 }) {
                        Some(next) => Some((next, BoxIterator::new(next))),
                        None => None,
                    },
                };
                assert(self.remaining() =~= old(self).remaining().drop_first());
                Some(box_iter)
            },
            None => None,
        }
    }
}

pub fn iter_sector(location: Location) -> (r: SectorIterator)
    requires
        location.is_valid(),
    ensures
        r.wf(),
        r.remaining() == sector_seq(location),
{
    SectorIterator::new(location)
}

pub fn iter_rows() -> (r: RowsIterator)
    ensures
        r.wf(),
        r.remaining() == Seq::new(9, |k: int| row_seq(k)),
{
    RowsIterator::new()
}

pub fn iter_columns() -> (r: ColumnsIterator)
    ensures
        r.wf(),
        r.remaining() == Seq::new(9, |k: int| column_seq(k)),
{
    ColumnsIterator::new()
}

pub fn iter_boxes() -> (r: BoxesIterator)
    ensures
        r.wf(),
        r.remaining() == Seq::new(9, |k: int| box_seq(box_corner(k))),
{
    BoxesIterator::new()
}

pub fn iter_row(location: Location) -> (r: RowIterator)
    requires
        location.is_valid(),
    ensures
        r.wf(),
        r.remaining() == row_seq(location.row as int),
{
    RowIterator::new(location)
}

pub fn iter_column(location: Location) -> (r: ColumnIterator)
    requires
        location.is_valid(),
    ensures
        r.wf(),
        r.remaining() == column_seq(location.column as int),
{
    ColumnIterator::new(location)
}

pub fn iter_box(location: Location) -> (r: BoxIterator)
    requires
        location.is_valid(),
    ensures
        r.wf(),
        r.remaining() == box_seq(corner_of(location)),
{
    BoxIterator::new(location)
}

} // verus!
