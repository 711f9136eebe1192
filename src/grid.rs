//! The board, what a solution of it is, and read-only queries on it.

use vstd::prelude::*;

use crate::cell::{Cell, Entropy, WaveFunction};
use crate::grid_iter::{in_sector, lemma_sector_exact, sector_at, sector_cell, sector_seq, SECTOR_LEN};
use crate::location::{lemma_index_bijection, Location, CELL_COUNT};

verus! {

/// Cells `i` and `j` are two distinct cells of one sector.
pub open spec fn peers(i: int, j: int) -> bool {
    &&& 0 <= i < 81
    &&& 0 <= j < 81
    &&& i != j
    &&& in_sector(Location::at_index(i), Location::at_index(j))
}

/// A complete assignment of digits with no digit twice in any sector.
pub open spec fn is_solution(s: Seq<u8>) -> bool {
    &&& s.len() == 81
    &&& forall|i: int| 0 <= i < 81 ==> 1 <= #[trigger] s[i] <= 9
    &&& forall|i: int, j: int| #[trigger] peers(i, j) ==> s[i] != s[j]
}

/// What a cell says of the digit `v` that a solution puts there.
pub open spec fn cell_allows(c: Cell, v: int) -> bool {
    match c {
        Cell::Certain { digit } => v == digit,
        Cell::Uncertain { wave } => wave.allows(v),
        Cell::Blank => true,
    }
}

/// Every cell allows what `s` puts there.
pub open spec fn compatible(cells: Seq<Cell>, s: Seq<u8>) -> bool {
    forall|i: int| 0 <= i < 81 ==> #[trigger] cell_allows(cells[i], s[i] as int)
}

/// `s` is a solution of the board `cells`.
pub open spec fn admits(cells: Seq<Cell>, s: Seq<u8>) -> bool {
    is_solution(s) && compatible(cells, s)
}

/// No two certain cells of one sector hold the same digit.
pub open spec fn consistent(cells: Seq<Cell>) -> bool {
    forall|i: int, j: int|
        #[trigger] peers(i, j) && cells[i] is Certain && cells[j] is Certain ==> cells[i]->digit
            != cells[j]->digit
}

/// Every certain digit is in `1..=9`.
pub open spec fn digits_in_range(cells: Seq<Cell>) -> bool {
    forall|i: int|
        0 <= i < 81 && (#[trigger] cells[i]) is Certain ==> 1 <= cells[i]->digit <= 9
}

/// Every uncertain cell still has between two and nine possibilities.
pub open spec fn settled(cells: Seq<Cell>) -> bool {
    forall|i: int|
        0 <= i < 81 && (#[trigger] cells[i]) is Uncertain ==> 2 <= cells[i]->wave.spec_entropy()
            <= 9
}

pub open spec fn no_blank(cells: Seq<Cell>) -> bool {
    forall|i: int| 0 <= i < 81 ==> !(#[trigger] cells[i] is Blank)
}

pub open spec fn all_certain(cells: Seq<Cell>) -> bool {
    forall|i: int| 0 <= i < 81 ==> (#[trigger] cells[i]) is Certain
}

/// The invariants a board keeps while it is solved.
pub open spec fn solving_state(cells: Seq<Cell>) -> bool {
    &&& cells.len() == 81
    &&& consistent(cells)
    &&& digits_in_range(cells)
    &&& settled(cells)
}

/// Count of cells that are not certain.
pub open spec fn count_open(cells: Seq<Cell>) -> nat
    decreases cells.len(),
{
    if cells.len() == 0 {
        0
    } else {
        count_open(cells.drop_last()) + if cells.last() is Certain {
            0nat
        } else {
            1nat
        }
    }
}

pub proof fn lemma_count_open_update(cells: Seq<Cell>, i: int, c: Cell)
    requires
        0 <= i < cells.len(),
    ensures
        count_open(cells.update(i, c)) + (if cells[i] is Certain {
            0int
        } else {
            1int
        }) == count_open(cells) + (if c is Certain {
            0int
        } else {
            1int
        }),
    decreases cells.len(),
{
    let u = cells.update(i, c);
    if i == cells.len() - 1 {
        assert(u.drop_last() =~= cells.drop_last());
    } else {
        lemma_count_open_update(cells.drop_last(), i, c);
        assert(u.drop_last() =~= cells.drop_last().update(i, c));
    }
}

/// Keeping every certain cell certain, a board with more certain cells has
/// fewer open ones.
pub proof fn lemma_count_open_monotone(a: Seq<Cell>, b: Seq<Cell>)
    requires
        a.len() == b.len(),
        forall|i: int| 0 <= i < a.len() && (#[trigger] a[i]) is Certain ==> b[i] is Certain,
    ensures
        count_open(b) <= count_open(a),
        (exists|i: int| 0 <= i < a.len() && !(a[i] is Certain) && (#[trigger] b[i]) is Certain)
            ==> count_open(b) < count_open(a),
    decreases a.len(),
{
    if a.len() > 0 {
        let a0 = a.drop_last();
        let b0 = b.drop_last();
        assert forall|i: int| 0 <= i < a0.len() && (#[trigger] a0[i]) is Certain implies b0[i] is Certain by {
            assert(a[i] is Certain);
        }
        lemma_count_open_monotone(a0, b0);
        if exists|i: int| 0 <= i < a.len() && !(a[i] is Certain) && (#[trigger] b[i]) is Certain {
            let i = choose|i: int| 0 <= i < a.len() && !(a[i] is Certain) && (#[trigger] b[i]) is Certain;
            if i < a.len() - 1 {
                assert(!(a0[i] is Certain) && b0[i] is Certain);
            }
        }
    }
}

/// Peers by location, seen as peers by index.
pub proof fn lemma_peers_of_locations(a: Location, b: Location)
    requires
        a.is_valid(),
        b.is_valid(),
        a != b,
        in_sector(a, b),
    ensures
        peers(a.index(), b.index()),
        peers(b.index(), a.index()),
{
    lemma_index_bijection(a, 0);
    lemma_index_bijection(b, 0);
}

/// A fixed board of 81 cells, row by row.
#[derive(Clone, PartialEq, Debug)]
pub struct Grid {
    pub cells: [Cell; 81],
}

impl Grid {
    pub open spec fn cell(&self, l: Location) -> Cell {
        self.cells@[l.index()]
    }

    pub fn new_max_entropy() -> (r: Grid)
        ensures
            forall|i: int|
                0 <= i < 81 ==> ((#[trigger] r.cells@[i]) matches Cell::Uncertain { wave }
                    && forall|d: int| 1 <= d <= 9 ==> wave.allows(d)),
    {
        let c = Cell::new_max_entropy();
        Grid { cells: [c; 81] }
    }

    pub fn new_from_cells(cells: Box<[Cell; 81]>) -> (r: Grid)
        ensures
            r.cells@ == cells@,
    {
        Grid { cells: *cells }
    }

    pub fn get_at(&self, location: Location) -> (r: Cell)
        requires
            location.is_valid(),
        ensures
            r == self.cell(location),
    {
        self.cells[location.into_index()]
    }

    pub fn set_at(&mut self, location: Location, cell: Cell)
        requires
            location.is_valid(),
        ensures
            final(self).cells@ == old(self).cells@.update(location.index(), cell),
    {
        self.cells[location.into_index()] = cell;
    }

    pub fn set_index(&mut self, i: usize, cell: Cell)
        requires
            i < CELL_COUNT,
        ensures
            final(self).cells@ == old(self).cells@.update(i as int, cell),
    {
        self.cells[i] = cell;
    }

    pub fn get_index(&self, i: usize) -> (r: Cell)
        requires
            i < CELL_COUNT,
        ensures
            r == self.cells@[i as int],
    {
        self.cells[i]
    }

    /// The digits that no certain cell of the sector of `location` (itself
    /// included) already holds; other cells' waves are not consulted.
    pub fn wave_at(&self, location: Location) -> (r: WaveFunction)
        requires
            location.is_valid(),
        ensures
            forall|d: int|
                #![trigger r.allows(d)]
                r.allows(d) <==> 1 <= d <= 9 && !(exists|j: int|
                    0 <= j < 81 && in_sector(location, Location::at_index(j))
                        && #[trigger] self.cells@[j] == (Cell::Certain { digit: d as u8 })),
    {
        let mut wave = WaveFunction::new_max_entropy();
        let mut k: usize = 0;
        proof {
            lemma_sector_exact(location);
        }
        while k < SECTOR_LEN
            invariant
                k <= 21,
                location.is_valid(),
                forall|d: int|
                    #![trigger wave.allows(d)]
                    wave.allows(d) <==> 1 <= d <= 9 && !(exists|m: int|
                        0 <= m < k && #[trigger] self.cells@[sector_at(location, m).index()]
                            == (Cell::Certain { digit: d as u8 })),
            decreases 21 - k,
        {
            let n = sector_cell(location, k);
            match self.get_at(n) {
                Cell::Certain { digit } => {
                    if 1 <= digit && digit <= 9 {
                        wave.remove_possibility(digit);
                    }
                },
                _ => {},
            }
            k = k + 1;
            assert forall|d: int| #![trigger wave.allows(d)]
                wave.allows(d) <==> 1 <= d <= 9 && !(exists|m: int|
                    0 <= m < k && #[trigger] self.cells@[sector_at(location, m).index()]
                        == (Cell::Certain { digit: d as u8 })) by {
                if 1 <= d <= 9 && self.cells@[n.index()] == (Cell::Certain { digit: d as u8 }) {
                    assert(self.cells@[sector_at(location, k - 1).index()] == (Cell::Certain { digit: d as u8 }));
                }
            }
        }
        assert forall|d: int| #![trigger wave.allows(d)]
            wave.allows(d) <==> 1 <= d <= 9 && !(exists|j: int|
                0 <= j < 81 && in_sector(location, Location::at_index(j))
                    && #[trigger] self.cells@[j] == (Cell::Certain { digit: d as u8 })) by {
            if 1 <= d <= 9 {
                if exists|j: int|
                    0 <= j < 81 && in_sector(location, Location::at_index(j))
                        && #[trigger] self.cells@[j] == (Cell::Certain { digit: d as u8 }) {
                    let j = choose|j: int|
                        0 <= j < 81 && in_sector(location, Location::at_index(j))
                            && #[trigger] self.cells@[j] == (Cell::Certain { digit: d as u8 });
                    lemma_index_bijection(location, j);
                    let lj = Location::at_index(j);
                    assert(sector_seq(location).contains(lj));
                    let m = choose|m: int| 0 <= m < 21 && sector_seq(location)[m] == lj;
                    assert(self.cells@[sector_at(location, m).index()] == (Cell::Certain { digit: d as u8 }));
                }
                if exists|m: int|
                    0 <= m < 21 && #[trigger] self.cells@[sector_at(location, m).index()]
                        == (Cell::Certain { digit: d as u8 }) {
                    let m = choose|m: int|
                        0 <= m < 21 && #[trigger] self.cells@[sector_at(location, m).index()]
                            == (Cell::Certain { digit: d as u8 });
                    let l = sector_at(location, m);
                    assert(sector_seq(location)[m] == l);
                    lemma_index_bijection(l, 0);
                    assert(self.cells@[l.index()] == (Cell::Certain { digit: d as u8 }));
                }
            }
        }
        wave
    }

    /// The uncertain cell with the fewest possibilities, the first one in
    /// row-major order among equals; `None` when no cell is uncertain. The
    /// scan stops at the first cell with two possibilities, the least an
    /// uncertain cell can have.
    pub fn lowest_entropy(&self) -> (r: Option<(Location, WaveFunction)>)
        requires
            settled(self.cells@),
        ensures
            r is None <==> forall|i: int| 0 <= i < 81 ==> !((#[trigger] self.cells@[i]) is Uncertain),
            r matches Some((l, w)) ==> {
                &&& l.is_valid()
                &&& self.cells@[l.index()] == (Cell::Uncertain { wave: w })
                &&& forall|i: int|
                    0 <= i < 81 && (#[trigger] self.cells@[i]) is Uncertain ==> self.cells@[i]->wave.spec_entropy()
                        >= w.spec_entropy()
                &&& forall|i: int|
                    0 <= i < l.index() && (#[trigger] self.cells@[i]) is Uncertain ==> self.cells@[i]->wave.spec_entropy()
                        > w.spec_entropy()
            },
    {
        let mut lowest: Option<(Location, WaveFunction)> = None;
        let mut lowest_entropy: Entropy = Entropy::MAX;
        let mut i: usize = 0;
        while i < CELL_COUNT
            invariant
                i <= 81,
                settled(self.cells@),
                lowest is None <==> forall|j: int| 0 <= j < i ==> !((#[trigger] self.cells@[j]) is Uncertain),
                forall|j: int| 0 <= j < i && (#[trigger] self.cells@[j]) is Uncertain ==> self.cells@[j]->wave.spec_entropy() > 2,
                lowest matches Some((l, w)) ==> {
                    &&& l.is_valid()
                    &&& l.index() < i
                    &&& self.cells@[l.index()] == (Cell::Uncertain { wave: w })
                    &&& lowest_entropy == w.spec_entropy()
                    &&& forall|j: int|
                        0 <= j < i && (#[trigger] self.cells@[j]) is Uncertain ==> self.cells@[j]->wave.spec_entropy()
                            >= w.spec_entropy()
                    &&& forall|j: int|
                        0 <= j < l.index() && (#[trigger] self.cells@[j]) is Uncertain ==> self.cells@[j]->wave.spec_entropy()
                            > w.spec_entropy()
                },
            decreases 81 - i,
        {
            match self.cells[i] {
                Cell::Uncertain { wave } => {
                    let local_entropy = wave.entropy();
                    let location = Location::from_index(i);
                    if local_entropy == 2 {
                        return Some((location, wave));
                    }
                    if lowest.is_none() || local_entropy < lowest_entropy {
                        lowest = Some((location, wave));
                        lowest_entropy = local_entropy;
                    }
                },
                _ => {},
            }
            i = i + 1;
        }
        lowest
    }

    /// Like `lowest_entropy`, skipping the cells marked in `visited`. `Ok(None)`
    /// when no cell is uncertain, `Err` when some are but all were visited.
    pub fn lowest_entropy_except(&self, visited: &[bool; 81]) -> (r: Result<Option<(Location, WaveFunction)>, ()>)
        requires
            settled(self.cells@),
        ensures
            r == Ok::<Option<(Location, WaveFunction)>, ()>(None) <==> forall|i: int| 0 <= i < 81 ==> !((#[trigger] self.cells@[i]) is Uncertain),
            r is Err <==> (exists|i: int| 0 <= i < 81 && (#[trigger] self.cells@[i]) is Uncertain)
                && forall|i: int| 0 <= i < 81 && (#[trigger] self.cells@[i]) is Uncertain ==> visited@[i],
            r matches Ok(Some((l, w))) ==> {
                &&& l.is_valid()
                &&& !visited@[l.index()]
                &&& self.cells@[l.index()] == (Cell::Uncertain { wave: w })
                &&& forall|i: int|
                    0 <= i < 81 && (#[trigger] self.cells@[i]) is Uncertain && !visited@[i] ==> self.cells@[i]->wave.spec_entropy()
                        >= w.spec_entropy()
                &&& forall|i: int|
                    0 <= i < l.index() && (#[trigger] self.cells@[i]) is Uncertain && !visited@[i] ==> self.cells@[i]->wave.spec_entropy()
                        > w.spec_entropy()
            },
    {
        let mut lowest: Option<(Location, WaveFunction)> = None;
        let mut lowest_entropy: Entropy = Entropy::MAX;
        let mut all_certain = true;
        let mut i: usize = 0;
        while i < CELL_COUNT
            invariant
                i <= 81,
                settled(self.cells@),
                all_certain <==> forall|j: int| 0 <= j < i ==> !((#[trigger] self.cells@[j]) is Uncertain),
                lowest is None <==> forall|j: int| 0 <= j < i && (#[trigger] self.cells@[j]) is Uncertain ==> visited@[j],
                forall|j: int| 0 <= j < i && (#[trigger] self.cells@[j]) is Uncertain && !visited@[j] ==> self.cells@[j]->wave.spec_entropy() > 2,
                lowest matches Some((l, w)) ==> {
                    &&& l.is_valid()
                    &&& l.index() < i
                    &&& !visited@[l.index()]
                    &&& self.cells@[l.index()] == (Cell::Uncertain { wave: w })
                    &&& lowest_entropy == w.spec_entropy()
                    &&& forall|j: int|
                        0 <= j < i && (#[trigger] self.cells@[j]) is Uncertain && !visited@[j] ==> self.cells@[j]->wave.spec_entropy()
                            >= w.spec_entropy()
                    &&& forall|j: int|
                        0 <= j < l.index() && (#[trigger] self.cells@[j]) is Uncertain && !visited@[j] ==> self.cells@[j]->wave.spec_entropy()
                            > w.spec_entropy()
                },
            decreases 81 - i,
        {
            match self.cells[i] {
                Cell::Uncertain { wave } => {
                    all_certain = false;
                    if !visited[i] {
                        let local_entropy = wave.entropy();
                        let location = Location::from_index(i);
                        if local_entropy == 2 {
                            return Ok(Some((location, wave)));
                        }
                        if lowest.is_none() || local_entropy < lowest_entropy {
                            lowest = Some((location, wave));
                            lowest_entropy = local_entropy;
                        }
                    }
                },
                _ => {},
            }
            i = i + 1;
        }
        if all_certain {
            Ok(None)
        } else if lowest.is_none() {
            Err(())
        } else {
            Ok(lowest)
        }
    }

    /// Every cell is certain.
    pub fn is_solved(&self) -> (r: bool)
        ensures
            r == all_certain(self.cells@),
    {
        let mut i: usize = 0;
        while i < CELL_COUNT
            invariant
                i <= 81,
                forall|j: int| 0 <= j < i ==> (#[trigger] self.cells@[j]) is Certain,
            decreases 81 - i,
        {
            match self.cells[i] {
                Cell::Certain { .. } => {},
                _ => {
                    return false;
                },
            }
            i = i + 1;
        }
        true
    }

    /// No certain digit is repeated in any sector.
    pub fn check_valid(&self) -> (r: bool)
        ensures
            r == consistent(self.cells@),
    {
        let mut i: usize = 0;
        while i < CELL_COUNT
            invariant
                i <= 81,
                forall|a: int, b: int|
                    #[trigger] peers(a, b) && a < i && self.cells@[a] is Certain
                        && self.cells@[b] is Certain ==> self.cells@[a]->digit
                        != self.cells@[b]->digit,
            decreases 81 - i,
        {
            match self.cells[i] {
                Cell::Certain { digit } => {
                    let location = Location::from_index(i);
                    proof {
                        lemma_sector_exact(location);
                    }
                    let mut k: usize = 0;
                    while k < SECTOR_LEN
                        invariant
                            k <= 21,
                            i < 81,
                            location == Location::at_index(i as int),
                            location.is_valid(),
                            location.index() == i,
                            self.cells@[i as int] == (Cell::Certain { digit }),
                            forall|m: int|
                                0 <= m < k ==> #[trigger] sector_at(location, m) != location
                                    ==> self.cells@[sector_at(location, m).index()]
                                    != (Cell::Certain { digit }),
                        decreases 21 - k,
                    {
                        let neighbor = sector_cell(location, k);
                        match self.get_at(neighbor) {
                            Cell::Certain { digit: other } => {
                                if other == digit && neighbor != location {
                                    proof {
                                        lemma_peers_of_locations(location, neighbor);
                                    }
                                    return false;
                                }
                            },
                            _ => {},
                        }
                        k = k + 1;
                    }
                    assert forall|a: int, b: int|
                        #[trigger] peers(a, b) && a < i + 1 && self.cells@[a] is Certain
                            && self.cells@[b] is Certain implies self.cells@[a]->digit
                            != self.cells@[b]->digit by {
                        if a == i {
                            let lb = Location::at_index(b);
                            lemma_index_bijection(lb, b);
                            lemma_index_bijection(location, a);
                            assert(sector_seq(location).contains(lb));
                            let m = choose|m: int| 0 <= m < 21 && sector_seq(location)[m] == lb;
                            assert(sector_at(location, m) == lb);
                        }
                    }
                },
                _ => {},
            }
            i = i + 1;
        }
        true
    }
}

} // verus!
