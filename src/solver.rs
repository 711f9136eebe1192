//! What the solvers share: group sweeps, wave initialization, and the
//! choice of algorithm.

use vstd::prelude::*;
use vstd::seq_lib::seq_to_set_is_finite;
use vstd::set_lib::lemma_len_subset;

use crate::cell::{Cell, Digit};
use crate::grid::{
    admits, all_certain, cell_allows, consistent, count_open, digits_in_range,
    is_solution, lemma_count_open_monotone, no_blank, peers, settled, solving_state, Grid,
};
use crate::grid_iter::{in_sector, loc};
use crate::location::{lemma_index_bijection, Location, CELL_COUNT};
use crate::propagation::{cell_refines, lemma_refines_compatible, refines, removed_by_peer};

verus! {

/// The three kinds of nine-cell groups: rows, columns and boxes.
#[derive(Clone, Copy, PartialEq, Eq, Debug, Structural)]
pub enum GroupKind {
    Rows,
    Columns,
    Boxes,
}

/// Cell `k` of group `g` of the given kind; boxes are counted row by row and
/// walked row by row.
pub open spec fn group_at(kind: GroupKind, g: int, k: int) -> Location {
    match kind {
        GroupKind::Rows => loc(g, k),
        GroupKind::Columns => loc(k, g),
        GroupKind::Boxes => loc(g / 3 * 3 + k / 3, g % 3 * 3 + k % 3),
    }
}

fn group_cell(kind: GroupKind, g: usize, k: usize) -> (r: Location)
    requires
        g < 9,
        k < 9,
    ensures
        r == group_at(kind, g as int, k as int),
        r.is_valid(),
{
    match kind {
        GroupKind::Rows => Location { row: g as u8, column: k as u8 },
        GroupKind::Columns => Location { row: k as u8, column: g as u8 },
        GroupKind::Boxes => Location {
            row: (g / 3 * 3 + k / 3) as u8,
            column: (g % 3 * 3 + k % 3) as u8,
        },
    }
}

/// Two distinct cells of one group are peers.
pub proof fn lemma_group_peers(kind: GroupKind, g: int, k1: int, k2: int)
    requires
        0 <= g < 9,
        0 <= k1 < 9,
        0 <= k2 < 9,
    ensures
        group_at(kind, g, k1).is_valid(),
        k1 != k2 ==> peers(group_at(kind, g, k1).index(), group_at(kind, g, k2).index()),
{
    let a = group_at(kind, g, k1);
    let b = group_at(kind, g, k2);
    lemma_index_bijection(a, 0);
    lemma_index_bijection(b, 0);
}

/// The nine cells of a group of a solution hold every digit.
pub proof fn lemma_group_covers(s: Seq<u8>, kind: GroupKind, g: int, d: int)
    requires
        is_solution(s),
        0 <= g < 9,
        1 <= d <= 9,
    ensures
        exists|k: int| 0 <= k < 9 && s[#[trigger] group_at(kind, g, k).index()] == d,
{
    let v = Seq::new(9, |k: int| s[group_at(kind, g, k).index()]);
    assert forall|i: int, j: int| 0 <= i < v.len() && 0 <= j < v.len() && i != j implies v[i] != v[j] by {
        lemma_group_peers(kind, g, i, j);
    }
    if !(exists|k: int| 0 <= k < 9 && s[#[trigger] group_at(kind, g, k).index()] == d) {
        let w = Seq::new(8, |k: int| (if k + 1 < d { k + 1 } else { k + 2 }) as u8);
        v.unique_seq_to_set();
        w.lemma_cardinality_of_set();
        seq_to_set_is_finite(w);
        assert forall|x: u8| v.to_set().contains(x) implies w.to_set().contains(x) by {
            let k = choose|k: int| 0 <= k < v.len() && v[k] == x;
            lemma_group_peers(kind, g, k, k);
            let idx = if x < d { x - 1 } else { x - 2 };
            assert(w[idx] == x);
        }
        lemma_len_subset(v.to_set(), w.to_set());
    }
}

/// The digits of a board whose cells are all certain.
pub open spec fn grid_digits(cells: Seq<Cell>) -> Seq<u8> {
    Seq::new(81, |i: int| cells[i]->digit)
}

/// A complete, consistent board is a solution, and the only one it admits.
pub proof fn lemma_complete_board(cells: Seq<Cell>)
    requires
        cells.len() == 81,
        all_certain(cells),
        consistent(cells),
        digits_in_range(cells),
    ensures
        admits(cells, grid_digits(cells)),
        forall|s: Seq<u8>| #[trigger] admits(cells, s) ==> s == grid_digits(cells),
{
    let g = grid_digits(cells);
    assert forall|i: int, j: int| #[trigger] peers(i, j) implies g[i] != g[j] by {
        assert(cells[i] is Certain && cells[j] is Certain);
    }
    assert forall|i: int| 0 <= i < 81 implies 1 <= #[trigger] g[i] <= 9 by {
        assert(cells[i] is Certain);
    }
    assert forall|i: int| 0 <= i < 81 implies #[trigger] cell_allows(cells[i], g[i] as int) by {
        assert(cells[i] is Certain);
    }
    assert forall|s: Seq<u8>| #[trigger] admits(cells, s) implies s == grid_digits(cells) by {
        assert forall|i: int| 0 <= i < 81 implies s[i] == g[i] by {
            assert(cell_allows(cells[i], s[i] as int));
            assert(cells[i] is Certain);
        }
        assert(s =~= g);
    }
}

/// A board that admits a solution has its certain digits in range and
/// repeats none of them in a sector.
pub proof fn lemma_admitted_board(cells: Seq<Cell>, s: Seq<u8>)
    requires
        cells.len() == 81,
        admits(cells, s),
    ensures
        consistent(cells),
        digits_in_range(cells),
{
    assert forall|i: int, j: int| #[trigger] peers(i, j) && cells[i] is Certain && cells[j] is Certain implies cells[i]->digit != cells[j]->digit by {
        assert(cell_allows(cells[i], s[i] as int));
        assert(cell_allows(cells[j], s[j] as int));
    }
    assert forall|i: int| 0 <= i < 81 && (#[trigger] cells[i]) is Certain implies 1 <= cells[i]->digit <= 9 by {
        assert(cell_allows(cells[i], s[i] as int));
        assert(1 <= s[i] <= 9);
    }
}

/// A board refined at every cell admits no solution the coarser one refuses.
pub proof fn lemma_refined_admits(before: Seq<Cell>, after: Seq<Cell>, s: Seq<u8>)
    requires
        before.len() == 81,
        refines(before, after, -1),
        admits(after, s),
    ensures
        admits(before, s),
{
    assert forall|i: int| 0 <= i < 81 implies #[trigger] cell_allows(before[i], s[i] as int) by {
        assert(cell_allows(after[i], s[i] as int));
        assert(cell_refines(before[i], after[i]));
    }
}

proof fn lemma_refines_trans_all(a: Seq<Cell>, b: Seq<Cell>, c: Seq<Cell>)
    requires
        refines(a, b, -1),
        refines(b, c, -1),
    ensures
        refines(a, c, -1),
{
    assert forall|i: int| 0 <= i < a.len() && i != -1 implies cell_refines(a[i], #[trigger] c[i]) by {
        assert(cell_refines(a[i], b[i]));
        assert(cell_refines(b[i], c[i]));
    }
}

/// What a group sweep knows of one digit.
#[derive(Clone, Copy)]
enum DigitState {
    /// Exactly one uncertain cell so far may take it.
    Unique(Location),
    /// Two cells may take it, or a cell holds it.
    NonUniqueOrAlreadyUsed,
    /// No cell so far may take it.
    Unseen,
}

/// Digit `d` can go in cell `k` of group `g` and in no other cell of the
/// group, and that cell is still open.
pub open spec fn hidden_single(cells: Seq<Cell>, kind: GroupKind, g: int, k: int, d: int) -> bool {
    &&& cells[group_at(kind, g, k).index()] is Uncertain
    &&& cell_allows(cells[group_at(kind, g, k).index()], d)
    &&& forall|m: int|
        0 <= m < 9 && m != k ==> !cell_allows(cells[#[trigger] group_at(kind, g, m).index()], d)
}

/// What the sweep state `st` of digit `d` says of the first `n` cells of
/// group `g`.
spec fn sweep_state(cells: Seq<Cell>, kind: GroupKind, g: int, n: int, d: int, st: DigitState) -> bool {
    match st {
        DigitState::Unique(l) => {
            &&& l.is_valid()
            &&& cells[l.index()] is Uncertain
            &&& cell_allows(cells[l.index()], d)
            &&& exists|m0: int| 0 <= m0 < n && #[trigger] group_at(kind, g, m0) == l
            &&& forall|m: int|
                0 <= m < n && #[trigger] group_at(kind, g, m) != l ==> !cell_allows(
                    cells[group_at(kind, g, m).index()],
                    d,
                )
        },
        DigitState::Unseen => forall|m: int|
            0 <= m < n ==> !cell_allows(cells[#[trigger] group_at(kind, g, m).index()], d),
        DigitState::NonUniqueOrAlreadyUsed => (exists|m1: int, m2: int|
            0 <= m1 < n && 0 <= m2 < n && m1 != m2 && cell_allows(cells[#[trigger] group_at(kind, g, m1).index()], d)
                && cell_allows(cells[#[trigger] group_at(kind, g, m2).index()], d)) || (exists|m: int|
            0 <= m < n && cells[#[trigger] group_at(kind, g, m).index()] is Certain && cell_allows(
                cells[group_at(kind, g, m).index()],
                d,
            )),
    }
}

proof fn lemma_sweep_skip(cells: Seq<Cell>, kind: GroupKind, g: int, n: int, d: int, st: DigitState)
    requires
        sweep_state(cells, kind, g, n, d, st),
        !cell_allows(cells[group_at(kind, g, n).index()], d),
    ensures
        sweep_state(cells, kind, g, n + 1, d, st),
{
    match st {
        DigitState::Unique(l) => {
            let m0 = choose|m0: int| 0 <= m0 < n && #[trigger] group_at(kind, g, m0) == l;
            assert(0 <= m0 < n + 1 && group_at(kind, g, m0) == l);
        },
        DigitState::Unseen => {},
        DigitState::NonUniqueOrAlreadyUsed => {
            if exists|m1: int, m2: int|
                0 <= m1 < n && 0 <= m2 < n && m1 != m2 && cell_allows(cells[#[trigger] group_at(kind, g, m1).index()], d)
                    && cell_allows(cells[#[trigger] group_at(kind, g, m2).index()], d) {
                let (m1, m2) = choose|m1: int, m2: int|
                    0 <= m1 < n && 0 <= m2 < n && m1 != m2 && cell_allows(cells[#[trigger] group_at(kind, g, m1).index()], d)
                        && cell_allows(cells[#[trigger] group_at(kind, g, m2).index()], d);
                assert(0 <= m1 < n + 1 && 0 <= m2 < n + 1);
            } else {
                let m = choose|m: int|
                    0 <= m < n && cells[#[trigger] group_at(kind, g, m).index()] is Certain && cell_allows(
                        cells[group_at(kind, g, m).index()],
                        d,
                    );
                assert(0 <= m < n + 1);
            }
        },
    }
}

proof fn lemma_sweep_certain(cells: Seq<Cell>, kind: GroupKind, g: int, n: int, d: int)
    requires
        0 <= n,
        cells[group_at(kind, g, n).index()] is Certain,
        cell_allows(cells[group_at(kind, g, n).index()], d),
    ensures
        sweep_state(cells, kind, g, n + 1, d, DigitState::NonUniqueOrAlreadyUsed),
{
    assert(0 <= n < n + 1 && cells[group_at(kind, g, n).index()] is Certain);
}

/// The state after an open cell that allows the digit.
spec fn sweep_next(st: DigitState, l: Location) -> DigitState {
    match st {
        DigitState::Unique(_) => DigitState::NonUniqueOrAlreadyUsed,
        DigitState::Unseen => DigitState::Unique(l),
        DigitState::NonUniqueOrAlreadyUsed => DigitState::NonUniqueOrAlreadyUsed,
    }
}

proof fn lemma_sweep_open(cells: Seq<Cell>, kind: GroupKind, g: int, n: int, d: int, st: DigitState)
    requires
        0 <= n,
        sweep_state(cells, kind, g, n, d, st),
        group_at(kind, g, n).is_valid(),
        cells[group_at(kind, g, n).index()] is Uncertain,
        cell_allows(cells[group_at(kind, g, n).index()], d),
    ensures
        sweep_state(cells, kind, g, n + 1, d, sweep_next(st, group_at(kind, g, n))),
{
    match st {
        DigitState::Unique(l) => {
            let m0 = choose|m0: int| 0 <= m0 < n && #[trigger] group_at(kind, g, m0) == l;
            assert(0 <= m0 < n + 1 && 0 <= n < n + 1 && m0 != n);
            assert(cell_allows(cells[group_at(kind, g, m0).index()], d));
        },
        DigitState::Unseen => {
            assert(0 <= n < n + 1 && group_at(kind, g, n) == group_at(kind, g, n));
        },
        DigitState::NonUniqueOrAlreadyUsed => {
            lemma_sweep_skip_nonunique(cells, kind, g, n, d);
        },
    }
}

proof fn lemma_sweep_skip_nonunique(cells: Seq<Cell>, kind: GroupKind, g: int, n: int, d: int)
    requires
        sweep_state(cells, kind, g, n, d, DigitState::NonUniqueOrAlreadyUsed),
    ensures
        sweep_state(cells, kind, g, n + 1, d, DigitState::NonUniqueOrAlreadyUsed),
{
    if exists|m1: int, m2: int|
        0 <= m1 < n && 0 <= m2 < n && m1 != m2 && cell_allows(cells[#[trigger] group_at(kind, g, m1).index()], d)
            && cell_allows(cells[#[trigger] group_at(kind, g, m2).index()], d) {
        let (m1, m2) = choose|m1: int, m2: int|
            0 <= m1 < n && 0 <= m2 < n && m1 != m2 && cell_allows(cells[#[trigger] group_at(kind, g, m1).index()], d)
                && cell_allows(cells[#[trigger] group_at(kind, g, m2).index()], d);
        assert(0 <= m1 < n + 1 && 0 <= m2 < n + 1);
    } else {
        let m = choose|m: int|
            0 <= m < n && cells[#[trigger] group_at(kind, g, m).index()] is Certain && cell_allows(
                cells[group_at(kind, g, m).index()],
                d,
            );
        assert(0 <= m < n + 1);
    }
}

/// After a whole group, a hidden single leaves its digit's state on its cell.
proof fn lemma_sweep_finds(cells: Seq<Cell>, kind: GroupKind, g: int, k: int, d: int, st: DigitState)
    requires
        0 <= k < 9,
        sweep_state(cells, kind, g, 9, d, st),
        hidden_single(cells, kind, g, k, d),
    ensures
        st == DigitState::Unique(group_at(kind, g, k)),
{
    match st {
        DigitState::Unique(l) => {
            let m0 = choose|m0: int| 0 <= m0 < 9 && #[trigger] group_at(kind, g, m0) == l;
            if m0 != k {
                assert(!cell_allows(cells[group_at(kind, g, m0).index()], d));
            }
        },
        DigitState::Unseen => {
            assert(!cell_allows(cells[group_at(kind, g, k).index()], d));
        },
        DigitState::NonUniqueOrAlreadyUsed => {
            if exists|m1: int, m2: int|
                0 <= m1 < 9 && 0 <= m2 < 9 && m1 != m2 && cell_allows(cells[#[trigger] group_at(kind, g, m1).index()], d)
                    && cell_allows(cells[#[trigger] group_at(kind, g, m2).index()], d) {
                let (m1, m2) = choose|m1: int, m2: int|
                    0 <= m1 < 9 && 0 <= m2 < 9 && m1 != m2 && cell_allows(cells[#[trigger] group_at(kind, g, m1).index()], d)
                        && cell_allows(cells[#[trigger] group_at(kind, g, m2).index()], d);
                if m1 != k {
                    assert(!cell_allows(cells[group_at(kind, g, m1).index()], d));
                } else {
                    assert(!cell_allows(cells[group_at(kind, g, m2).index()], d));
                }
            } else {
                let m = choose|m: int|
                    0 <= m < 9 && cells[#[trigger] group_at(kind, g, m).index()] is Certain && cell_allows(
                        cells[group_at(kind, g, m).index()],
                        d,
                    );
                if m != k {
                    assert(!cell_allows(cells[group_at(kind, g, m).index()], d));
                }
            }
        },
    }
}

/// Within every group of the given kind, fixes each digit that exactly one
/// cell of the group can still take and that no cell holds. Returns whether a
/// cell was fixed; fails when the board turns out to have no solution.
pub fn pass_wave_group(grid: &mut Grid, kind: GroupKind) -> (r: Result<bool, ()>)
    requires
        solving_state(old(grid).cells@),
        no_blank(old(grid).cells@),
    ensures
        r is Err ==> forall|s: Seq<u8>| !admits(old(grid).cells@, s),
        r is Ok ==> solving_state(final(grid).cells@) && no_blank(final(grid).cells@),
        r is Ok ==> refines(old(grid).cells@, final(grid).cells@, -1),
        r is Ok ==> forall|s: Seq<u8>|
            admits(old(grid).cells@, s) <==> #[trigger] admits(final(grid).cells@, s),
        r is Ok ==> count_open(final(grid).cells@) <= count_open(old(grid).cells@),
        r == Ok::<bool, ()>(true) ==> count_open(final(grid).cells@) < count_open(old(grid).cells@),
        r == Ok::<bool, ()>(false) ==> final(grid).cells@ == old(grid).cells@,
        r == Ok::<bool, ()>(false) ==> forall|g: int, k: int, d: int|
            0 <= g < 9 && 0 <= k < 9 && 1 <= d <= 9 ==> !#[trigger] hidden_single(old(grid).cells@, kind, g, k, d),
        r is Ok && (exists|s: Seq<u8>| admits(old(grid).cells@, s)) ==> forall|g: int, k: int, d: int|
            0 <= g < 9 && 0 <= k < 9 && 1 <= d <= 9 && #[trigger] hidden_single(old(grid).cells@, kind, g, k, d)
                ==> final(grid).cells@[group_at(kind, g, k).index()] == (Cell::Certain { digit: d as u8 }),
{
    let ghost g0 = grid.cells@;
    let ghost solvable = exists|s: Seq<u8>| admits(g0, s);
    let mut collapsed_any = false;
    let mut g: usize = 0;
    while g < 9
        invariant
            g <= 9,
            g0 == old(grid).cells@,
            g0.len() == 81,
            solvable == exists|s: Seq<u8>| admits(g0, s),
            solving_state(grid.cells@),
            no_blank(grid.cells@),
            refines(g0, grid.cells@, -1),
            forall|s: Seq<u8>| admits(g0, s) <==> #[trigger] admits(grid.cells@, s),
            count_open(grid.cells@) <= count_open(g0),
            collapsed_any ==> count_open(grid.cells@) < count_open(g0),
            !collapsed_any ==> grid.cells@ == g0,
            !collapsed_any ==> forall|h: int, k: int, d: int|
                0 <= h < g && 0 <= k < 9 && 1 <= d <= 9 ==> !#[trigger] hidden_single(g0, kind, h, k, d),
            solvable ==> forall|h: int, k: int, d: int|
                0 <= h < g && 0 <= k < 9 && 1 <= d <= 9 && #[trigger] hidden_single(g0, kind, h, k, d)
                    ==> grid.cells@[group_at(kind, h, k).index()] == (Cell::Certain { digit: d as u8 }),
        decreases 9 - g,
    {
        let ghost gs = grid.cells@;
        let mut states: [DigitState; 9] = [DigitState::Unseen; 9];
        let mut k: usize = 0;
        while k < 9
            invariant
                k <= 9,
                g < 9,
                grid.cells@ == gs,
                gs.len() == 81,
                no_blank(gs),
                digits_in_range(gs),
                forall|e: int| 0 <= e < 9 ==> sweep_state(gs, kind, g as int, k as int, e + 1, #[trigger] states@[e]),
            decreases 9 - k,
        {
            let cell = group_cell(kind, g, k);
            let ghost ci = cell.index();
            proof {
                lemma_group_peers(kind, g as int, k as int, k as int);
                lemma_index_bijection(cell, 0);
            }
            let ghost before = states@;
            match grid.get_at(cell) {
                Cell::Certain { digit } => {
                    if 1 <= digit && digit <= 9 {
                        states[digit as usize - 1] = DigitState::NonUniqueOrAlreadyUsed;
                    }
                    proof {
                        assert forall|e: int| 0 <= e < 9 implies sweep_state(gs, kind, g as int, k + 1, e + 1, #[trigger] states@[e]) by {
                            if e == digit - 1 {
                                lemma_sweep_certain(gs, kind, g as int, k as int, e + 1);
                            } else {
                                assert(states@[e] == before[e]);
                                lemma_sweep_skip(gs, kind, g as int, k as int, e + 1, before[e]);
                            }
                        }
                    }
                },
                Cell::Uncertain { wave } => {
                    let mut dd: usize = 0;
                    while dd < 9
                        invariant
                            dd <= 9,
                            k < 9,
                            g < 9,
                            gs.len() == 81,
                            gs[ci] == (Cell::Uncertain { wave }),
                            cell == group_at(kind, g as int, k as int),
                            ci == cell.index(),
                            cell.is_valid(),
                            forall|e: int|
                                0 <= e < 9 ==> sweep_state(
                                    gs,
                                    kind,
                                    g as int,
                                    if e < dd { k + 1 } else { k as int },
                                    e + 1,
                                    #[trigger] states@[e],
                                ),
                        decreases 9 - dd,
                    {
                        let ghost prev = states@;
                        if wave.is_possible((dd + 1) as u8) {
                            match states[dd] {
                                DigitState::Unique(_) => {
                                    states[dd] = DigitState::NonUniqueOrAlreadyUsed;
                                },
                                DigitState::Unseen => {
                                    states[dd] = DigitState::Unique(cell);
                                },
                                DigitState::NonUniqueOrAlreadyUsed => {},
                            }
                            proof {
                                assert(states@[dd as int] == sweep_next(prev[dd as int], cell));
                                lemma_sweep_open(gs, kind, g as int, k as int, dd + 1, prev[dd as int]);
                            }
                        } else {
                            proof {
                                lemma_sweep_skip(gs, kind, g as int, k as int, dd + 1, prev[dd as int]);
                            }
                        }
                        proof {
                            assert forall|e: int| 0 <= e < 9 implies sweep_state(
                                gs,
                                kind,
                                g as int,
                                if e < dd + 1 { k + 1 } else { k as int },
                                e + 1,
                                #[trigger] states@[e],
                            ) by {
                                if e != dd {
                                    assert(states@[e] == prev[e]);
                                }
                            }
                        }
                        dd = dd + 1;
                    }
                },
                Cell::Blank => {
                    proof {
                        assert(!(gs[ci] is Blank));
                    }
                },
            }
            k = k + 1;
        }
        // Every solution puts each uniquely placed digit where the sweep found it,
        // and every hidden single is found.
        proof {
            assert forall|dd: int, s: Seq<u8>|
                #![trigger admits(gs, s), states@[dd]]
                0 <= dd < 9 && admits(gs, s) && states@[dd] is Unique implies s[
                    states@[dd]->Unique_0.index()] == dd + 1 by {
                assert(sweep_state(gs, kind, g as int, 9, dd + 1, states@[dd]));
                lemma_group_covers(s, kind, g as int, dd + 1);
                let m = choose|m: int| 0 <= m < 9 && s[#[trigger] group_at(kind, g as int, m).index()] == dd + 1;
                lemma_group_peers(kind, g as int, m, m);
                assert(cell_allows(gs[group_at(kind, g as int, m).index()], s[group_at(kind, g as int, m).index()] as int));
            }
            assert forall|e: int| 0 <= e < 9 implies (#[trigger] states@[e] matches DigitState::Unique(l) ==> l.is_valid()
                && gs[l.index()] is Uncertain && cell_allows(gs[l.index()], e + 1)) by {
                assert(sweep_state(gs, kind, g as int, 9, e + 1, states@[e]));
            }
            if solvable {
                assert forall|k0: int, d: int|
                    0 <= k0 < 9 && 1 <= d <= 9 && #[trigger] hidden_single(g0, kind, g as int, k0, d)
                        implies gs[group_at(kind, g as int, k0).index()] == (Cell::Certain { digit: d as u8 })
                        || states@[d - 1] == DigitState::Unique(group_at(kind, g as int, k0)) by {
                    let s = choose|s: Seq<u8>| admits(g0, s);
                    assert(admits(gs, s));
                    let c = group_at(kind, g as int, k0);
                    lemma_group_peers(kind, g as int, k0, k0);
                    assert forall|m: int| 0 <= m < 9 && m != k0 implies !cell_allows(gs[#[trigger] group_at(kind, g as int, m).index()], d) by {
                        lemma_group_peers(kind, g as int, m, m);
                        assert(!cell_allows(g0[group_at(kind, g as int, m).index()], d));
                        assert(cell_refines(g0[group_at(kind, g as int, m).index()], gs[group_at(kind, g as int, m).index()]));
                    }
                    lemma_group_covers(s, kind, g as int, d);
                    let m = choose|m: int| 0 <= m < 9 && s[#[trigger] group_at(kind, g as int, m).index()] == d;
                    lemma_group_peers(kind, g as int, m, m);
                    assert(cell_allows(gs[group_at(kind, g as int, m).index()], s[group_at(kind, g as int, m).index()] as int));
                    assert(m == k0);
                    assert(cell_allows(gs[c.index()], d));
                    assert(cell_refines(g0[c.index()], gs[c.index()]));
                    if gs[c.index()] is Uncertain {
                        assert(hidden_single(gs, kind, g as int, k0, d));
                        assert(sweep_state(gs, kind, g as int, 9, d, states@[d - 1]));
                        lemma_sweep_finds(gs, kind, g as int, k0, d, states@[d - 1]);
                    }
                }
            }
            if !collapsed_any {
                assert forall|k0: int, d: int|
                    0 <= k0 < 9 && 1 <= d <= 9 && #[trigger] hidden_single(g0, kind, g as int, k0, d)
                        implies states@[d - 1] == DigitState::Unique(group_at(kind, g as int, k0)) by {
                    lemma_group_peers(kind, g as int, k0, k0);
                    assert(sweep_state(gs, kind, g as int, 9, d, states@[d - 1]));
                    lemma_sweep_finds(gs, kind, g as int, k0, d, states@[d - 1]);
                }
            }
        }
        let ghost any_before = collapsed_any;
        let mut dd: usize = 0;
        while dd < 9
            invariant
                dd <= 9,
                g < 9,
                g0 == old(grid).cells@,
                g0.len() == 81,
                gs.len() == 81,
                solvable == exists|s: Seq<u8>| admits(g0, s),
                solving_state(grid.cells@),
                no_blank(grid.cells@),
                refines(g0, grid.cells@, -1),
                refines(gs, grid.cells@, -1),
                forall|s: Seq<u8>| admits(gs, s) <==> #[trigger] admits(grid.cells@, s),
                forall|s: Seq<u8>| admits(g0, s) <==> #[trigger] admits(gs, s),
                count_open(grid.cells@) <= count_open(g0),
                collapsed_any ==> count_open(grid.cells@) < count_open(g0),
                !any_before ==> gs == g0,
                any_before ==> collapsed_any,
                !collapsed_any ==> grid.cells@ == gs,
                !collapsed_any ==> forall|e: int| 0 <= e < dd ==> !(#[trigger] states@[e] is Unique),
                forall|e: int|
                    0 <= e < 9 ==> (#[trigger] states@[e] matches DigitState::Unique(l) ==> l.is_valid()
                        && gs[l.index()] is Uncertain && cell_allows(gs[l.index()], e + 1)),
                forall|e: int, s: Seq<u8>|
                    #![trigger admits(gs, s), states@[e]]
                    0 <= e < 9 && admits(gs, s) && states@[e] is Unique ==> s[
                        states@[e]->Unique_0.index()] == e + 1,
                solvable ==> forall|h: int, k: int, d: int|
                    0 <= h < g && 0 <= k < 9 && 1 <= d <= 9 && #[trigger] hidden_single(g0, kind, h, k, d)
                        ==> grid.cells@[group_at(kind, h, k).index()] == (Cell::Certain { digit: d as u8 }),
                solvable ==> forall|k0: int, d: int|
                    0 <= k0 < 9 && 1 <= d <= 9 && #[trigger] hidden_single(g0, kind, g as int, k0, d)
                        ==> gs[group_at(kind, g as int, k0).index()] == (Cell::Certain { digit: d as u8 })
                        || states@[d - 1] == DigitState::Unique(group_at(kind, g as int, k0)),
                solvable ==> forall|k0: int, d: int|
                    0 <= k0 < 9 && 1 <= d <= dd && #[trigger] hidden_single(g0, kind, g as int, k0, d)
                        ==> grid.cells@[group_at(kind, g as int, k0).index()] == (Cell::Certain { digit: d as u8 }),
                !any_before ==> forall|k0: int, d: int|
                    0 <= k0 < 9 && 1 <= d <= 9 && #[trigger] hidden_single(g0, kind, g as int, k0, d)
                        ==> states@[d - 1] == DigitState::Unique(group_at(kind, g as int, k0)),
            decreases 9 - dd,
        {
            let ghost cur = grid.cells@;
            match states[dd] {
                DigitState::Unique(location) => {
                    let digit = (dd + 1) as Digit;
                    let ghost li = location.index();
                    proof {
                        lemma_index_bijection(location, 0);
                    }
                    match grid.get_at(location) {
                        Cell::Uncertain { wave } => {
                            if wave.is_possible(digit) {
                                match grid.update_collapse(location, digit) {
                                    Ok(()) => {},
                                    Err(()) => {
                                        proof {
                                            assert forall|s: Seq<u8>| !admits(g0, s) by {
                                                if admits(g0, s) {
                                                    assert(admits(gs, s));
                                                    assert(admits(cur, s));
                                                    assert(states@[dd as int] == DigitState::Unique(location));
                                                    assert(s[li] == digit);
                                                }
                                            }
                                        }
                                        return Err(());
                                    },
                                }
                                proof {
                                    let new = grid.cells@;
                                    assert(cell_refines(cur[li], new[li]));
                                    assert forall|i: int| 0 <= i < 81 && i != -1 implies cell_refines(cur[i], #[trigger] new[i]) by {
                                        if i != li {
                                            assert(cell_refines(cur[i], new[i]));
                                        }
                                    }
                                    assert(refines(cur, new, -1));
                                    lemma_refines_trans_all(g0, cur, new);
                                    lemma_refines_trans_all(gs, cur, new);
                                    assert forall|s: Seq<u8>| admits(gs, s) <==> #[trigger] admits(new, s) by {
                                        if admits(gs, s) {
                                            assert(admits(cur, s));
                                            assert(states@[dd as int] == DigitState::Unique(location));
                                        }
                                        if admits(new, s) {
                                            lemma_refined_admits(cur, new, s);
                                        }
                                    }
                                    assert forall|i: int| 0 <= i < 81 implies !(#[trigger] new[i] is Blank) by {
                                        if i != li {
                                            assert(cell_refines(cur[i], new[i]));
                                        }
                                    }
                                    assert forall|i: int| 0 <= i < 81 && (#[trigger] cur[i]) is Certain implies new[i] == cur[i] by {
                                        assert(cell_refines(cur[i], new[i]));
                                    }
                                }
                                collapsed_any = true;
                            } else {
                                proof {
                                    assert forall|s: Seq<u8>| !admits(g0, s) by {
                                        if admits(g0, s) {
                                            assert(admits(gs, s));
                                            assert(admits(cur, s));
                                            assert(states@[dd as int] == DigitState::Unique(location));
                                            assert(cell_allows(cur[li], s[li] as int));
                                        }
                                    }
                                }
                                return Err(());
                            }
                        },
                        Cell::Certain { digit: existing } => {
                            if existing != digit {
                                proof {
                                    assert forall|s: Seq<u8>| !admits(g0, s) by {
                                        if admits(g0, s) {
                                            assert(admits(gs, s));
                                            assert(admits(cur, s));
                                            assert(states@[dd as int] == DigitState::Unique(location));
                                            assert(cell_allows(cur[li], s[li] as int));
                                        }
                                    }
                                }
                                return Err(());
                            }
                            proof {
                                assert(collapsed_any);
                            }
                        },
                        Cell::Blank => {
                            proof {
                                assert(!(cur[li] is Blank));
                            }
                        },
                    }
                },
                _ => {},
            }
            proof {
                let new = grid.cells@;
                assert forall|h: int, k: int, d: int|
                    solvable && 0 <= h < g && 0 <= k < 9 && 1 <= d <= 9 && #[trigger] hidden_single(g0, kind, h, k, d)
                        implies new[group_at(kind, h, k).index()] == (Cell::Certain { digit: d as u8 }) by {
                    lemma_group_peers(kind, h, k, k);
                    assert(cell_refines(cur[group_at(kind, h, k).index()], new[group_at(kind, h, k).index()]));
                }
                assert forall|k0: int, d: int|
                    solvable && 0 <= k0 < 9 && 1 <= d <= dd + 1 && #[trigger] hidden_single(g0, kind, g as int, k0, d)
                        implies new[group_at(kind, g as int, k0).index()] == (Cell::Certain { digit: d as u8 }) by {
                    lemma_group_peers(kind, g as int, k0, k0);
                    let c = group_at(kind, g as int, k0).index();
                    assert(cell_refines(cur[c], new[c]));
                    if d <= dd {
                    } else if gs[c] == (Cell::Certain { digit: d as u8 }) {
                        assert(cell_refines(gs[c], cur[c]));
                    } else {
                        assert(states@[d - 1] == DigitState::Unique(group_at(kind, g as int, k0)));
                        let s = choose|s: Seq<u8>| admits(g0, s);
                        assert(admits(gs, s));
                        assert(admits(cur, s));
                        assert(s[c] == d);
                        assert(cell_allows(cur[c], s[c] as int));
                    }
                }
            }
            dd = dd + 1;
        }
        g = g + 1;
    }
    Ok(collapsed_any)
}

/// Sweeps rows, then columns, then boxes, starting over as long as a sweep
/// fixes a cell. Fails when the board turns out to have no solution.
pub fn pass(grid: &mut Grid) -> (r: Result<(), ()>)
    requires
        solving_state(old(grid).cells@),
        no_blank(old(grid).cells@),
    ensures
        r is Err ==> forall|s: Seq<u8>| !admits(old(grid).cells@, s),
        r is Ok ==> solving_state(final(grid).cells@) && no_blank(final(grid).cells@),
        r is Ok ==> refines(old(grid).cells@, final(grid).cells@, -1),
        r is Ok ==> forall|s: Seq<u8>|
            admits(old(grid).cells@, s) <==> #[trigger] admits(final(grid).cells@, s),
        r is Ok ==> count_open(final(grid).cells@) <= count_open(old(grid).cells@),
        r is Ok ==> forall|kind: GroupKind, g: int, k: int, d: int|
            0 <= g < 9 && 0 <= k < 9 && 1 <= d <= 9 ==> !#[trigger] hidden_single(final(grid).cells@, kind, g, k, d),
{
    let ghost g0 = grid.cells@;
    proof {
        assert forall|i: int| 0 <= i < g0.len() && i != -1 implies cell_refines(g0[i], #[trigger] g0[i]) by {}
    }
    loop
        invariant
            g0 == old(grid).cells@,
            g0.len() == 81,
            solving_state(grid.cells@),
            no_blank(grid.cells@),
            refines(g0, grid.cells@, -1),
            forall|s: Seq<u8>| admits(g0, s) <==> #[trigger] admits(grid.cells@, s),
            count_open(grid.cells@) <= count_open(g0),
        decreases count_open(grid.cells@),
    {
        let ghost head = grid.cells@;
        let kinds = [GroupKind::Rows, GroupKind::Columns, GroupKind::Boxes];
        let mut changed = false;
        let mut q: usize = 0;
        while q < 3 && !changed
            invariant
                q <= 3,
                g0 == old(grid).cells@,
                g0.len() == 81,
                solving_state(grid.cells@),
                no_blank(grid.cells@),
                refines(g0, grid.cells@, -1),
                forall|s: Seq<u8>| admits(g0, s) <==> #[trigger] admits(grid.cells@, s),
                count_open(grid.cells@) <= count_open(head),
                count_open(head) <= count_open(g0),
                changed ==> count_open(grid.cells@) < count_open(head),
                kinds@ == seq![GroupKind::Rows, GroupKind::Columns, GroupKind::Boxes],
                !changed ==> grid.cells@ == head,
                !changed ==> forall|p: int, g: int, k: int, d: int|
                    0 <= p < q && 0 <= g < 9 && 0 <= k < 9 && 1 <= d <= 9 ==> !#[trigger] hidden_single(
                        head,
                        kinds@[p],
                        g,
                        k,
                        d,
                    ),
            decreases 3 - q,
        {
            let ghost before = grid.cells@;
            match pass_wave_group(grid, kinds[q]) {
                Ok(c) => {
                    changed = c;
                },
                Err(()) => {
                    proof {
                        assert forall|s: Seq<u8>| !admits(g0, s) by {
                            if admits(g0, s) {
                                assert(admits(before, s));
                            }
                        }
                    }
                    return Err(());
                },
            }
            proof {
                lemma_refines_trans_all(g0, before, grid.cells@);
            }
            q = q + 1;
        }
        if !changed {
            proof {
                assert forall|kind: GroupKind, g: int, k: int, d: int|
                    0 <= g < 9 && 0 <= k < 9 && 1 <= d <= 9 implies !#[trigger] hidden_single(grid.cells@, kind, g, k, d) by {
                    let p: int = match kind {
                        GroupKind::Rows => 0,
                        GroupKind::Columns => 1,
                        GroupKind::Boxes => 2,
                    };
                    assert(kinds@[p] == kind);
                }
            }
            return Ok(());
        }
    }
}

/// A peer of cell `j` holds `d`.
pub open spec fn peer_holds(cells: Seq<Cell>, j: int, d: int) -> bool {
    exists|m: int| #[trigger] peers(m, j) && cells[m] == (Cell::Certain { digit: d as u8 })
}

/// Gives every blank cell the wave of the digits its sector leaves open, in
/// row-major order; a cell left with one digit is collapsed at once. Fails
/// when a cell is left with no digit, or a collapse meets a contradiction.
pub fn initialize_waves(grid: &mut Grid) -> (r: Result<(), ()>)
    requires
        consistent(old(grid).cells@),
        digits_in_range(old(grid).cells@),
        settled(old(grid).cells@),
    ensures
        r is Err ==> forall|s: Seq<u8>| !admits(old(grid).cells@, s),
        r is Ok ==> solving_state(final(grid).cells@) && no_blank(final(grid).cells@),
        r is Ok ==> forall|i: int|
            0 <= i < 81 && (#[trigger] old(grid).cells@[i]) is Certain ==> final(grid).cells@[i]
                == old(grid).cells@[i],
        r is Ok ==> forall|s: Seq<u8>|
            admits(old(grid).cells@, s) <==> #[trigger] admits(final(grid).cells@, s),
        r is Ok ==> forall|j: int, d: int|
            0 <= j < 81 && 1 <= d <= 9 && old(grid).cells@[j] is Blank && final(grid).cells@[j] is Uncertain
                ==> (#[trigger] final(grid).cells@[j]->wave.allows(d) <==> !peer_holds(final(grid).cells@, j, d)),
{
    let ghost g0 = grid.cells@;
    let mut i: usize = 0;
    while i < CELL_COUNT
        invariant
            i <= 81,
            g0 == old(grid).cells@,
            g0.len() == 81,
            grid.cells@.len() == 81,
            consistent(grid.cells@),
            digits_in_range(grid.cells@),
            settled(grid.cells@),
            forall|j: int| 0 <= j < i ==> !((#[trigger] grid.cells@[j]) is Blank),
            forall|j: int| 0 <= j < 81 && (#[trigger] g0[j]) is Certain ==> grid.cells@[j] == g0[j],
            forall|s: Seq<u8>| admits(g0, s) <==> #[trigger] admits(grid.cells@, s),
            forall|j: int, d: int|
                0 <= j < i && 1 <= d <= 9 && g0[j] is Blank && grid.cells@[j] is Uncertain
                    ==> (#[trigger] grid.cells@[j]->wave.allows(d) <==> !peer_holds(grid.cells@, j, d)),
            forall|j: int| i <= j < 81 && (#[trigger] g0[j]) is Blank ==> grid.cells@[j] is Blank,
        decreases 81 - i,
    {
        let ghost cur = grid.cells@;
        match grid.get_index(i) {
            Cell::Blank => {
                let location = Location::from_index(i);
                let wave = grid.wave_at(location);
                proof {
                    wave.lemma_states();
                    assert forall|s: Seq<u8>| admits(cur, s) implies #[trigger] wave.allows(s[i as int] as int) by {
                        let v = s[i as int] as int;
                        if exists|j: int|
                            0 <= j < 81 && in_sector(location, Location::at_index(j))
                                && #[trigger] cur[j] == (Cell::Certain { digit: v as u8 }) {
                            let j = choose|j: int|
                                0 <= j < 81 && in_sector(location, Location::at_index(j))
                                    && #[trigger] cur[j] == (Cell::Certain { digit: v as u8 });
                            lemma_index_bijection(location, j);
                            assert(peers(i as int, j));
                            assert(cell_allows(cur[j], s[j] as int));
                        }
                    }
                }
                if wave.entropy() == 0 {
                    proof {
                        assert forall|s: Seq<u8>| !admits(g0, s) by {
                            if admits(g0, s) {
                                assert(admits(cur, s));
                                assert(wave.allows(s[i as int] as int));
                                assert(wave.states_seq().contains(s[i as int]));
                            }
                        }
                    }
                    return Err(());
                }
                match wave.collapsed() {
                    Some(digit) => {
                        proof {
                            assert forall|s: Seq<u8>| admits(cur, s) implies s[i as int] == digit by {
                                assert(wave.allows(s[i as int] as int));
                                assert(wave.states_seq().contains(s[i as int]));
                            }
                            assert(wave.allows(digit as int));
                        }
                        match grid.update_collapse(location, digit) {
                            Ok(()) => {},
                            Err(()) => {
                                proof {
                                    assert forall|s: Seq<u8>| !admits(g0, s) by {
                                        if admits(g0, s) {
                                            assert(admits(cur, s));
                                        }
                                    }
                                }
                                return Err(());
                            },
                        }
                        proof {
                            let new = grid.cells@;
                            assert(cur.update(i as int, Cell::Blank) =~= cur);
                            assert forall|s: Seq<u8>| admits(g0, s) <==> #[trigger] admits(new, s) by {
                                if admits(g0, s) {
                                    assert(admits(cur, s));
                                }
                                if admits(new, s) {
                                    lemma_refines_compatible(cur, new, i as int, s);
                                    assert(admits(cur, s));
                                }
                            }
                            assert forall|j: int| 0 <= j < i + 1 implies !((#[trigger] new[j]) is Blank) by {
                                if j != i {
                                    assert(cell_refines(cur[j], new[j]));
                                }
                            }
                            assert forall|j: int| 0 <= j < 81 && (#[trigger] g0[j]) is Certain implies new[j] == g0[j] by {
                                assert(cell_refines(cur[j], new[j]));
                            }
                            assert forall|j: int| i + 1 <= j < 81 && (#[trigger] g0[j]) is Blank implies new[j] is Blank by {
                                assert(cell_refines(cur[j], new[j]));
                            }
                            assert forall|j: int, d: int|
                                0 <= j < i + 1 && 1 <= d <= 9 && g0[j] is Blank && new[j] is Uncertain
                                    implies (#[trigger] new[j]->wave.allows(d) <==> !peer_holds(new, j, d)) by {
                                assert(j != i);
                                assert(cell_refines(cur[j], new[j]));
                                assert(cur[j] is Uncertain);
                                assert(cur[j]->wave.allows(d) <==> !peer_holds(cur, j, d));
                                if peer_holds(new, j, d) && !removed_by_peer(cur, new, j, d) {
                                    let m = choose|m: int| #[trigger] peers(m, j) && new[m] == (Cell::Certain { digit: d as u8 });
                                    assert(cur[m] is Certain);
                                    assert(cell_refines(cur[m], new[m]) || m == i);
                                    assert(peer_holds(cur, j, d));
                                }
                                if peer_holds(cur, j, d) {
                                    let m = choose|m: int| #[trigger] peers(m, j) && cur[m] == (Cell::Certain { digit: d as u8 });
                                    assert(m != i);
                                    assert(cell_refines(cur[m], new[m]));
                                    assert(peer_holds(new, j, d));
                                }
                                if removed_by_peer(cur, new, j, d) {
                                    let m = choose|m: int| #[trigger] peers(m, j) && new[m] == (Cell::Certain { digit: d as u8 }) && !(cur[m] is Certain);
                                    assert(peer_holds(new, j, d));
                                }
                            }
                        }
                    },
                    None => {
                        grid.set_index(i, Cell::Uncertain { wave });
                        proof {
                            let new = grid.cells@;
                            assert forall|s: Seq<u8>| admits(g0, s) <==> #[trigger] admits(new, s) by {
                                if admits(g0, s) {
                                    assert(admits(cur, s));
                                    assert(wave.allows(s[i as int] as int));
                                    assert forall|j: int| 0 <= j < 81 implies #[trigger] cell_allows(new[j], s[j] as int) by {
                                        assert(cell_allows(cur[j], s[j] as int));
                                    }
                                }
                                if admits(new, s) {
                                    assert forall|j: int| 0 <= j < 81 implies #[trigger] cell_allows(cur[j], s[j] as int) by {
                                        assert(cell_allows(new[j], s[j] as int));
                                    }
                                    assert(admits(cur, s));
                                }
                            }
                            assert forall|a: int, b: int|
                                #[trigger] peers(a, b) && new[a] is Certain && new[b] is Certain implies new[a]->digit
                                    != new[b]->digit by {
                                assert(cur[a] == new[a] && cur[b] == new[b]);
                            }
                            assert forall|j: int, d: int|
                                0 <= j < i + 1 && 1 <= d <= 9 && g0[j] is Blank && new[j] is Uncertain
                                    implies (#[trigger] new[j]->wave.allows(d) <==> !peer_holds(new, j, d)) by {
                                if peer_holds(new, j, d) {
                                    let m = choose|m: int| #[trigger] peers(m, j) && new[m] == (Cell::Certain { digit: d as u8 });
                                    assert(m != i);
                                    assert(cur[m] == new[m]);
                                    if j == i {
                                        lemma_index_bijection(location, m);
                                        assert(in_sector(location, Location::at_index(m)));
                                    } else {
                                        assert(peer_holds(cur, j, d));
                                    }
                                }
                                if j == i {
                                    if !wave.allows(d) {
                                        let m = choose|m: int|
                                            0 <= m < 81 && in_sector(location, Location::at_index(m))
                                                && #[trigger] cur[m] == (Cell::Certain { digit: d as u8 });
                                        assert(m != i);
                                        lemma_index_bijection(location, m);
                                        assert(peers(m, j));
                                        assert(new[m] == cur[m]);
                                    }
                                } else {
                                    assert(cur[j] == new[j]);
                                    if peer_holds(cur, j, d) {
                                        let m = choose|m: int| #[trigger] peers(m, j) && cur[m] == (Cell::Certain { digit: d as u8 });
                                        assert(m != i);
                                        assert(new[m] == cur[m]);
                                    }
                                }
                            }
                        }
                    },
                }
            },
            _ => {},
        }
        i = i + 1;
    }
    Ok(())
}

/// `result` solves `puzzle`: every cell is certain, no digit repeats in a
/// sector, the puzzle's certain digits are kept, and the digits are a
/// solution the puzzle admits.
pub open spec fn solved_from(puzzle: Seq<Cell>, result: Seq<Cell>) -> bool {
    &&& result.len() == 81
    &&& all_certain(result)
    &&& consistent(result)
    &&& digits_in_range(result)
    &&& forall|i: int| 0 <= i < 81 && (#[trigger] puzzle[i]) is Certain ==> result[i] == puzzle[i]
    &&& admits(puzzle, grid_digits(result))
}

/// The solutions of a board with one uncertain cell fixed to a digit its wave
/// allows are the board's solutions with that digit there.
pub proof fn lemma_branch(before: Seq<Cell>, after: Seq<Cell>, li: int, d: u8)
    requires
        before.len() == 81,
        0 <= li < 81,
        before[li] is Uncertain,
        before[li]->wave.allows(d as int),
        refines(before, after, li),
        after[li] == (Cell::Certain { digit: d }),
        no_blank(before),
        forall|s: Seq<u8>| #[trigger] admits(before, s) && s[li] == d ==> admits(after, s),
    ensures
        forall|s: Seq<u8>| #[trigger] admits(after, s) <==> admits(before, s) && s[li] == d,
        no_blank(after),
        refines(before, after, -1),
        count_open(after) < count_open(before),
{
    assert forall|s: Seq<u8>| #[trigger] admits(after, s) <==> admits(before, s) && s[li] == d by {
        if admits(after, s) {
            lemma_refines_compatible(before, after, li, s);
            assert(cell_allows(after[li], s[li] as int));
            assert forall|i: int| 0 <= i < 81 implies #[trigger] cell_allows(before[i], s[i] as int) by {
                assert(cell_allows(before.update(li, Cell::Blank)[i], s[i] as int));
            }
        }
    }
    assert forall|i: int| 0 <= i < 81 implies !(#[trigger] after[i] is Blank) by {
        if i != li {
            assert(cell_refines(before[i], after[i]));
        }
    }
    assert forall|i: int| 0 <= i < before.len() && i != -1 implies cell_refines(before[i], #[trigger] after[i]) by {
        if i != li {
            assert(cell_refines(before[i], after[i]));
        }
    }
    assert forall|i: int| 0 <= i < before.len() && (#[trigger] before[i]) is Certain implies after[i] is Certain by {
        assert(cell_refines(before[i], after[i]));
    }
    lemma_count_open_monotone(before, after);
}

/// The two ways of solving a board.
#[derive(Clone, Copy, PartialEq, Eq, Debug, Structural)]
pub enum SolvingAlgorithms {
    /// Depth-first search over the lowest-entropy cells alone.
    BruteforceBacktracking,
    /// Group sweeps between the guesses of the search.
    NeighboringWavesIntersection,
}

impl Default for SolvingAlgorithms {
    fn default() -> (r: SolvingAlgorithms)
        ensures
            r == SolvingAlgorithms::NeighboringWavesIntersection,
    {
        SolvingAlgorithms::NeighboringWavesIntersection
    }
}

/// Solves `board` with the chosen algorithm.
pub fn solve_with(board: &Grid, algorithm: SolvingAlgorithms) -> (r: Grid)
    requires
        settled(board.cells@),
        exists|s: Seq<u8>| admits(board.cells@, s),
    ensures
        solved_from(board.cells@, r.cells@),
{
    match algorithm {
        SolvingAlgorithms::BruteforceBacktracking => crate::bruteforce_backtracking::solve(board),
        SolvingAlgorithms::NeighboringWavesIntersection => crate::neighboring_waves_intersection::solve(board),
    }
}

/// Solves `board` with the chosen algorithm, or returns `None` when the
/// board has no solution.
pub fn try_solve_with(board: &Grid, algorithm: SolvingAlgorithms) -> (r: Option<Grid>)
    requires
        digits_in_range(board.cells@),
        settled(board.cells@),
    ensures
        r is None <==> !(exists|s: Seq<u8>| admits(board.cells@, s)),
        r matches Some(g) ==> solved_from(board.cells@, g.cells@),
{
    let mut grid = Grid { cells: board.cells };
    let ghost puzzle = grid.cells@;
    if !grid.check_valid() {
        proof {
            assert forall|s: Seq<u8>| !admits(puzzle, s) by {
                if admits(puzzle, s) {
                    lemma_admitted_board(puzzle, s);
                }
            }
        }
        return None;
    }
    match initialize_waves(&mut grid) {
        Ok(()) => {},
        Err(()) => {
            return None;
        },
    }
    let ghost ready = grid.cells@;
    if grid.is_solved() {
        proof {
            lemma_complete_board(ready);
            assert(admits(puzzle, grid_digits(ready)));
        }
        return Some(grid);
    }
    let result = match algorithm {
        SolvingAlgorithms::BruteforceBacktracking => crate::bruteforce_backtracking::solve_bruteforce_internal(grid),
        SolvingAlgorithms::NeighboringWavesIntersection => crate::neighboring_waves_intersection::solve_backtracking(grid),
    };
    match result {
        Ok(solved) => {
            proof {
                assert(admits(ready, grid_digits(solved.cells@)));
            }
            Some(solved)
        },
        Err(()) => {
            proof {
                assert forall|s: Seq<u8>| !admits(puzzle, s) by {
                    if admits(puzzle, s) {
                        assert(admits(ready, s));
                    }
                }
            }
            None
        },
    }
}

} // verus!
