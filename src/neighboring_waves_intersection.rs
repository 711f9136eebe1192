//! The solver that sweeps groups between guesses, and the uniqueness check
//! built on it.

use vstd::prelude::*;

use crate::cell::Cell;
use crate::grid::{
    admits, all_certain, consistent, count_open, digits_in_range, no_blank, settled, solving_state,
    Grid,
};
use crate::solver::{
    grid_digits, initialize_waves, lemma_admitted_board, lemma_branch, lemma_complete_board,
    lemma_group_covers, lemma_group_peers, pass, solved_from, GroupKind,
};

verus! {

/// The board admits exactly one solution.
pub open spec fn unique_solution(cells: Seq<Cell>) -> bool {
    exists|s: Seq<u8>| admits(cells, s) && forall|t: Seq<u8>| #[trigger] admits(cells, t) ==> t == s
}

/// A complete, valid board with one cell blanked has exactly one solution:
/// the digit the cell held is the only one its row leaves.
pub proof fn lemma_one_blank_unique(cells: Seq<Cell>, i: int)
    requires
        cells.len() == 81,
        all_certain(cells),
        consistent(cells),
        digits_in_range(cells),
        0 <= i < 81,
    ensures
        unique_solution(cells.update(i, Cell::Blank)),
{
    let b = cells.update(i, Cell::Blank);
    lemma_complete_board(cells);
    let g = grid_digits(cells);
    assert forall|j: int| 0 <= j < 81 implies #[trigger] crate::grid::cell_allows(b[j], g[j] as int) by {
        assert(crate::grid::cell_allows(cells[j], g[j] as int));
    }
    assert(admits(b, g));
    assert forall|t: Seq<u8>| #[trigger] admits(b, t) implies t == g by {
        assert forall|j: int| 0 <= j < 81 implies t[j] == g[j] by {
            if j != i {
                assert(crate::grid::cell_allows(b[j], t[j] as int));
                assert(cells[j] is Certain);
            } else {
                let r = i / 9;
                lemma_group_covers(g, GroupKind::Rows, r, t[i] as int);
                let k = choose|k: int| 0 <= k < 9 && g[#[trigger] crate::solver::group_at(GroupKind::Rows, r, k).index()] == t[i] as int;
                let ci = crate::solver::group_at(GroupKind::Rows, r, k).index();
                lemma_group_peers(GroupKind::Rows, r, k, i % 9);
                assert(crate::solver::group_at(GroupKind::Rows, r, i % 9).index() == i);
                if ci != i {
                    assert(crate::grid::cell_allows(b[ci], t[ci] as int));
                    assert(cells[ci] is Certain);
                    assert(t[ci] == g[ci]);
                }
            }
        }
        assert(t =~= g);
    }
}

/// Solves a board by group sweeps between depth-first guesses: waves are
/// given to the blank cells, then rows, columns and boxes are swept for
/// digits with a single place, and when no sweep helps the lowest-entropy
/// cell is tried with each of its digits in ascending order.
pub fn solve(base_grid: &Grid) -> (r: Grid)
    requires
        settled(base_grid.cells@),
        exists|s: Seq<u8>| admits(base_grid.cells@, s),
    ensures
        solved_from(base_grid.cells@, r.cells@),
{
    let mut grid = Grid { cells: base_grid.cells };
    let ghost puzzle = grid.cells@;
    proof {
        let s = choose|s: Seq<u8>| admits(puzzle, s);
        lemma_admitted_board(puzzle, s);
    }
    match initialize_waves(&mut grid) {
        Ok(()) => {},
        Err(()) => {
            proof {
                let s = choose|s: Seq<u8>| admits(puzzle, s);
                assert(!admits(puzzle, s));
            }
            return grid;
        },
    }
    let ghost ready = grid.cells@;
    if grid.is_solved() {
        proof {
            lemma_complete_board(ready);
        }
        return grid;
    }
    proof {
        let s = choose|s: Seq<u8>| admits(puzzle, s);
        assert(admits(ready, s));
    }
    match solve_backtracking(grid) {
        Ok(solved) => {
            proof {
                assert(admits(ready, grid_digits(solved.cells@)));
            }
            solved
        },
        Err(()) => {
            proof {
                let s = choose|s: Seq<u8>| admits(puzzle, s);
                assert(admits(ready, s));
            }
            Grid::new_max_entropy()
        },
    }
}

/// Whether the board has exactly one solution. Boards that repeat a digit in
/// a sector have none.
pub fn has_unique_solution(base_grid: &Grid) -> (r: bool)
    requires
        digits_in_range(base_grid.cells@),
        settled(base_grid.cells@),
    ensures
        r == unique_solution(base_grid.cells@),
{
    let mut grid = Grid { cells: base_grid.cells };
    let ghost puzzle = grid.cells@;
    if !grid.check_valid() {
        proof {
            assert forall|s: Seq<u8>| !admits(puzzle, s) by {
                if admits(puzzle, s) {
                    lemma_admitted_board(puzzle, s);
                }
            }
        }
        return false;
    }
    match initialize_waves(&mut grid) {
        Ok(()) => {},
        Err(()) => {
            return false;
        },
    }
    let ghost ready = grid.cells@;
    if grid.is_solved() {
        proof {
            lemma_complete_board(ready);
            assert(admits(puzzle, grid_digits(ready)));
            assert forall|t: Seq<u8>| #[trigger] admits(puzzle, t) implies t == grid_digits(ready) by {
                assert(admits(ready, t));
            }
        }
        return true;
    }
    let count = count_solutions(grid);
    proof {
        if count == 2 {
            let (s, t) = choose|s: Seq<u8>, t: Seq<u8>| admits(ready, s) && admits(ready, t) && s != t;
            if unique_solution(puzzle) {
                let u = choose|u: Seq<u8>| admits(puzzle, u) && forall|t: Seq<u8>| #[trigger] admits(puzzle, t) ==> t == u;
                assert(admits(puzzle, s) && admits(puzzle, t));
            }
        }
        if count == 1 {
            let s = choose|s: Seq<u8>| admits(ready, s) && forall|t: Seq<u8>| #[trigger] admits(ready, t) ==> t == s;
            assert(admits(puzzle, s));
            assert forall|t: Seq<u8>| #[trigger] admits(puzzle, t) implies t == s by {
                assert(admits(ready, t));
            }
        }
        if count == 0 {
            if unique_solution(puzzle) {
                let u = choose|u: Seq<u8>| admits(puzzle, u) && forall|t: Seq<u8>| #[trigger] admits(puzzle, t) ==> t == u;
                assert(admits(ready, u));
            }
        }
    }
    count == 1
}

/// How many solutions the board has, counting no further than two: group
/// sweeps, then every digit of the lowest-entropy cell in turn, stopping as
/// soon as a second solution is found.
fn count_solutions(grid: Grid) -> (r: u8)
    requires
        solving_state(grid.cells@),
        no_blank(grid.cells@),
    ensures
        r <= 2,
        r == 0 ==> forall|s: Seq<u8>| !admits(grid.cells@, s),
        r == 1 ==> unique_solution(grid.cells@),
        r == 2 ==> exists|s: Seq<u8>, t: Seq<u8>|
            admits(grid.cells@, s) && admits(grid.cells@, t) && s != t,
    decreases count_open(grid.cells@),
{
    let ghost g0 = grid.cells@;
    let mut grid = grid;
    match pass(&mut grid) {
        Ok(()) => {},
        Err(()) => {
            return 0;
        },
    }
    let ghost cur = grid.cells@;
    match grid.lowest_entropy() {
        None => {
            proof {
                assert forall|i: int| 0 <= i < 81 implies (#[trigger] cur[i]) is Certain by {
                    assert(!(cur[i] is Uncertain));
                    assert(!(cur[i] is Blank));
                }
                lemma_complete_board(cur);
                let s = grid_digits(cur);
                assert(admits(g0, s));
                assert forall|t: Seq<u8>| #[trigger] admits(g0, t) implies t == s by {
                    assert(admits(cur, t));
                }
            }
            1
        },
        Some((location, wave)) => {
            let ghost li = location.index();
            let states = wave.states();
            proof {
                wave.lemma_states();
            }
            let mut found: u8 = 0;
            let mut t: usize = 0;
            #[verifier::loop_isolation(false)]
            while t < states.len()
                invariant
                    t <= states@.len(),
                    states@ == wave.states_seq(),
                    location.is_valid(),
                    li == location.index(),
                    0 <= li < 81,
                    cur == grid.cells@,
                    cur[li] == (Cell::Uncertain { wave }),
                    solving_state(cur),
                    no_blank(cur),
                    count_open(cur) <= count_open(g0),
                    forall|s: Seq<u8>| admits(g0, s) <==> #[trigger] admits(cur, s),
                    forall|k: int| 0 <= k < states@.len() ==> wave.allows(#[trigger] states@[k] as int),
                    found <= 1,
                    found == 0 ==> forall|s: Seq<u8>| #[trigger] admits(cur, s) ==> !states@.take(t as int).contains(s[li]),
                    found == 1 ==> exists|s0: Seq<u8>|
                        admits(cur, s0) && states@.take(t as int).contains(s0[li]) && forall|s: Seq<u8>|
                            #[trigger] admits(cur, s) && states@.take(t as int).contains(s[li]) ==> s == s0,
                decreases states@.len() - t,
            {
                let state = states[t];
                let ghost taken = states@.take(t as int);
                let ghost next = states@.take(t + 1);
                proof {
                    assert(next =~= taken.push(state));
                    assert forall|v: u8| #[trigger] next.contains(v) <==> taken.contains(v) || v == state by {
                        if next.contains(v) && v != state {
                            let k = choose|k: int| 0 <= k < next.len() && next[k] == v;
                            assert(taken[k] == v);
                        }
                        if taken.contains(v) {
                            let k = choose|k: int| 0 <= k < taken.len() && taken[k] == v;
                            assert(next[k] == v);
                        }
                        if v == state {
                            assert(next[t as int] == v);
                        }
                    }
                }
                let mut branch = Grid { cells: grid.cells };
                match branch.update_collapse(location, state) {
                    Ok(()) => {
                        proof {
                            lemma_branch(cur, branch.cells@, li, state);
                        }
                        let ghost bcells = branch.cells@;
                        let c = count_solutions(branch);
                        if c == 2 {
                            proof {
                                let (s, u) = choose|s: Seq<u8>, u: Seq<u8>| admits(bcells, s) && admits(bcells, u) && s != u;
                                assert(admits(g0, s) && admits(g0, u));
                            }
                            return 2;
                        }
                        if c == 1 {
                            if found == 1 {
                                proof {
                                    let s0 = choose|s0: Seq<u8>|
                                        admits(cur, s0) && taken.contains(s0[li]) && forall|s: Seq<u8>|
                                            #[trigger] admits(cur, s) && taken.contains(s[li]) ==> s == s0;
                                    let s1 = choose|s1: Seq<u8>| admits(bcells, s1) && forall|t: Seq<u8>| #[trigger] admits(bcells, t) ==> t == s1;
                                    assert(admits(cur, s1) && s1[li] == state);
                                    let k = choose|k: int| 0 <= k < taken.len() && taken[k] == s0[li];
                                    assert(states@[k] < states@[t as int]);
                                    assert(s0 != s1);
                                    assert(admits(g0, s0) && admits(g0, s1));
                                }
                                return 2;
                            }
                            proof {
                                let s1 = choose|s1: Seq<u8>| admits(bcells, s1) && forall|t: Seq<u8>| #[trigger] admits(bcells, t) ==> t == s1;
                                assert(admits(cur, s1) && next.contains(s1[li]));
                                assert forall|s: Seq<u8>| #[trigger] admits(cur, s) && next.contains(s[li]) implies s == s1 by {
                                    if s[li] == state {
                                        assert(admits(bcells, s));
                                    }
                                }
                            }
                            found = 1;
                        } else {
                            proof {
                                if found == 0 {
                                    assert forall|s: Seq<u8>| #[trigger] admits(cur, s) implies !next.contains(s[li]) by {
                                        if s[li] == state {
                                            assert(admits(bcells, s));
                                        }
                                    }
                                } else {
                                    let s0 = choose|s0: Seq<u8>|
                                        admits(cur, s0) && taken.contains(s0[li]) && forall|s: Seq<u8>|
                                            #[trigger] admits(cur, s) && taken.contains(s[li]) ==> s == s0;
                                    assert(next.contains(s0[li]));
                                    assert forall|s: Seq<u8>| #[trigger] admits(cur, s) && next.contains(s[li]) implies s == s0 by {
                                        if s[li] == state {
                                            assert(admits(bcells, s));
                                        }
                                    }
                                }
                            }
                        }
                    },
                    Err(()) => {
                        proof {
                            if found == 0 {
                                assert forall|s: Seq<u8>| #[trigger] admits(cur, s) implies !next.contains(s[li]) by {
                                    if s[li] == state {
                                        assert(admits(cur, s) && s[li] == state);
                                    }
                                }
                            } else {
                                let s0 = choose|s0: Seq<u8>|
                                    admits(cur, s0) && taken.contains(s0[li]) && forall|s: Seq<u8>|
                                        #[trigger] admits(cur, s) && taken.contains(s[li]) ==> s == s0;
                                assert(next.contains(s0[li]));
                                assert forall|s: Seq<u8>| #[trigger] admits(cur, s) && next.contains(s[li]) implies s == s0 by {
                                    if s[li] == state {
                                        assert(admits(cur, s) && s[li] == state);
                                    }
                                }
                            }
                        }
                    },
                }
                t = t + 1;
            }
            proof {
                assert(states@.take(states@.len() as int) =~= states@);
                assert forall|s: Seq<u8>| #[trigger] admits(cur, s) implies states@.contains(s[li]) by {
                    assert(crate::grid::cell_allows(cur[li], s[li] as int));
                    assert(1 <= s[li] <= 9);
                        assert(wave.states_seq().contains((s[li] as int) as u8));
                }
                if found == 0 {
                    assert forall|s: Seq<u8>| !admits(g0, s) by {
                        if admits(g0, s) {
                            assert(admits(cur, s));
                            assert(states@.contains(s[li]));
                        }
                    }
                }
                if found == 1 {
                    let s0 = choose|s0: Seq<u8>|
                        admits(cur, s0) && states@.contains(s0[li]) && forall|s: Seq<u8>|
                            #[trigger] admits(cur, s) && states@.contains(s[li]) ==> s == s0;
                    assert(admits(g0, s0));
                    assert forall|u: Seq<u8>| #[trigger] admits(g0, u) implies u == s0 by {
                        assert(admits(cur, u));
                    }
                }
            }
            found
        },
    }
}

/// Group sweeps, then a guess on the lowest-entropy cell for each of its
/// digits in ascending order, recursively; the first solution found is
/// returned.
pub(crate) fn solve_backtracking(grid: Grid) -> (r: Result<Grid, ()>)
    requires
        solving_state(grid.cells@),
        no_blank(grid.cells@),
    ensures
        r matches Ok(g) ==> solved_from(grid.cells@, g.cells@),
        (exists|s: Seq<u8>| admits(grid.cells@, s)) ==> r is Ok,
    decreases count_open(grid.cells@),
{
    let ghost g0 = grid.cells@;
    let mut grid = grid;
    match pass(&mut grid) {
        Ok(()) => {},
        Err(()) => {
            return Err(());
        },
    }
    let ghost cur = grid.cells@;
    proof {
        assert forall|i: int| 0 <= i < 81 && (#[trigger] g0[i]) is Certain implies cur[i] == g0[i] by {
            assert(crate::propagation::cell_refines(g0[i], cur[i]));
        }
    }
    match grid.lowest_entropy() {
        None => {
            proof {
                assert forall|i: int| 0 <= i < 81 implies (#[trigger] cur[i]) is Certain by {
                    assert(!(cur[i] is Uncertain));
                    assert(!(cur[i] is Blank));
                }
                lemma_complete_board(cur);
                assert(admits(g0, grid_digits(cur)));
            }
            Ok(grid)
        },
        Some((location, wave)) => {
            let ghost li = location.index();
            let states = wave.states();
            proof {
                wave.lemma_states();
            }
            let mut t: usize = 0;
            #[verifier::loop_isolation(false)]
            while t < states.len()
                invariant
                    t <= states@.len(),
                    states@ == wave.states_seq(),
                    location.is_valid(),
                    li == location.index(),
                    0 <= li < 81,
                    cur == grid.cells@,
                    cur[li] == (Cell::Uncertain { wave }),
                    solving_state(cur),
                    no_blank(cur),
                    count_open(cur) <= count_open(g0),
                    forall|s: Seq<u8>| admits(g0, s) <==> #[trigger] admits(cur, s),
                    g0.len() == 81,
                    forall|i: int| 0 <= i < 81 && (#[trigger] g0[i]) is Certain ==> cur[i] == g0[i],
                    forall|k: int| 0 <= k < states@.len() ==> wave.allows(#[trigger] states@[k] as int),
                    forall|s: Seq<u8>| #[trigger] admits(cur, s) ==> !states@.take(t as int).contains(s[li]),
                decreases states@.len() - t,
            {
                let state = states[t];
                let ghost taken = states@.take(t as int);
                let ghost next = states@.take(t + 1);
                proof {
                    assert forall|v: u8| #[trigger] next.contains(v) implies taken.contains(v) || v == state by {
                        let k = choose|k: int| 0 <= k < next.len() && next[k] == v;
                        if k < t {
                            assert(taken[k] == v);
                        }
                    }
                }
                let mut branch = Grid { cells: grid.cells };
                match branch.update_collapse(location, state) {
                    Ok(()) => {
                        proof {
                            lemma_branch(cur, branch.cells@, li, state);
                        }
                        let ghost bcells = branch.cells@;
                        match solve_backtracking(branch) {
                            Ok(solved) => {
                                proof {
                                    let sc = solved.cells@;
                                    assert(admits(bcells, grid_digits(sc)));
                                    assert(admits(g0, grid_digits(sc)));
                                    assert forall|i: int| 0 <= i < 81 && (#[trigger] g0[i]) is Certain implies sc[i] == g0[i] by {
                                        assert(cur[i] == g0[i]);
                                        assert(crate::propagation::cell_refines(cur[i], bcells[i]));
                                    }
                                }
                                return Ok(solved);
                            },
                            Err(()) => {
                                proof {
                                    assert forall|s: Seq<u8>| #[trigger] admits(cur, s) implies !next.contains(s[li]) by {
                                        if s[li] == state {
                                            assert(admits(bcells, s));
                                        }
                                    }
                                }
                            },
                        }
                    },
                    Err(()) => {
                        proof {
                            assert forall|s: Seq<u8>| #[trigger] admits(cur, s) implies !next.contains(s[li]) by {
                                if s[li] == state {
                                    assert(admits(cur, s) && s[li] == state);
                                }
                            }
                        }
                    },
                }
                t = t + 1;
            }
            proof {
                assert(states@.take(states@.len() as int) =~= states@);
                assert forall|s: Seq<u8>| !admits(g0, s) by {
                    if admits(g0, s) {
                        assert(admits(cur, s));
                        assert(crate::grid::cell_allows(cur[li], s[li] as int));
                        assert(1 <= s[li] <= 9);
                        assert(wave.states_seq().contains((s[li] as int) as u8));
                    }
                }
            }
            Err(())
        },
    }
}

} // verus!
