//! The solver that searches depth-first over lowest-entropy cells alone.

use vstd::prelude::*;

use crate::cell::Cell;
use crate::grid::{admits, count_open, no_blank, settled, solving_state, Grid};
use crate::solver::{
    grid_digits, initialize_waves, lemma_admitted_board, lemma_branch, lemma_complete_board,
    solved_from,
};

verus! {

/// Solves a board by depth-first search alone: waves are given to the blank
/// cells, then the lowest-entropy cell not yet tried at this level is
/// collapsed to each of its digits in ascending order, and each branch is
/// searched in turn.
pub fn solve(grid: &Grid) -> (r: Grid)
    requires
        settled(grid.cells@),
        exists|s: Seq<u8>| admits(grid.cells@, s),
    ensures
        solved_from(grid.cells@, r.cells@),
{
    let mut new_grid = Grid { cells: grid.cells };
    let ghost puzzle = new_grid.cells@;
    proof {
        let s = choose|s: Seq<u8>| admits(puzzle, s);
        lemma_admitted_board(puzzle, s);
    }
    match initialize_waves(&mut new_grid) {
        Ok(()) => {},
        Err(()) => {
            proof {
                let s = choose|s: Seq<u8>| admits(puzzle, s);
                assert(!admits(puzzle, s));
            }
            return new_grid;
        },
    }
    let ghost ready = new_grid.cells@;
    proof {
        let s = choose|s: Seq<u8>| admits(puzzle, s);
        assert(admits(ready, s));
    }
    match solve_bruteforce_internal(new_grid) {
        Ok(solved) => {
            proof {
                assert(admits(ready, grid_digits(solved.cells@)));
            }
            solved
        },
        Err(()) => {
            proof {
                let s = choose|s: Seq<u8>| admits(puzzle, s);
                assert(admits(ready, s));
            }
            Grid::new_max_entropy()
        },
    }
}

/// Depth-first search: the lowest-entropy unvisited cell is marked visited
/// and collapsed to each of its digits in turn, recursing on every branch
/// that survives propagation. Fails when every uncertain cell of this level
/// was tried.
pub(crate) fn solve_bruteforce_internal(grid: Grid) -> (r: Result<Grid, ()>)
    requires
        solving_state(grid.cells@),
        no_blank(grid.cells@),
    ensures
        r matches Ok(g) ==> solved_from(grid.cells@, g.cells@),
        (exists|s: Seq<u8>| admits(grid.cells@, s)) ==> r is Ok,
    decreases count_open(grid.cells@),
{
    let ghost cur = grid.cells@;
    let mut visited: [bool; 81] = [false; 81];
    let mut visited_count: usize = 0;
    while visited_count < 81
        invariant
            visited_count <= 81,
            cur == grid.cells@,
            solving_state(cur),
            no_blank(cur),
            visited_count > 0 ==> forall|s: Seq<u8>| !admits(cur, s),
            visited_count == 0 ==> forall|i: int| 0 <= i < 81 ==> !(#[trigger] visited@[i]),
        decreases 81 - visited_count,
    {
        let (location, wave) = match grid.lowest_entropy_except(&visited) {
            Ok(None) => {
                proof {
                    assert forall|i: int| 0 <= i < 81 implies (#[trigger] cur[i]) is Certain by {
                        assert(!(cur[i] is Uncertain));
                        assert(!(cur[i] is Blank));
                    }
                    lemma_complete_board(cur);
                }
                return Ok(grid);
            },
            Err(()) => {
                proof {
                    let i = choose|i: int| 0 <= i < 81 && (#[trigger] cur[i]) is Uncertain;
                    assert(visited@[i]);
                    assert(visited_count > 0);
                }
                return Err(());
            },
            Ok(Some(x)) => x,
        };
        let ghost li = location.index();
        visited[location.into_index()] = true;
        visited_count = visited_count + 1;
        let states = wave.states();
        proof {
            wave.lemma_states();
        }
        let mut t: usize = 0;
        while t < states.len()
            invariant
                t <= states@.len(),
                states@ == wave.states_seq(),
                location.is_valid(),
                li == location.index(),
                0 <= li < 81,
                cur == grid.cells@,
                cur[li] == (Cell::Uncertain { wave }),
                solving_state(cur),
                no_blank(cur),
                forall|k: int| 0 <= k < states@.len() ==> wave.allows(#[trigger] states@[k] as int),
                forall|s: Seq<u8>| #[trigger] admits(cur, s) ==> !states@.take(t as int).contains(s[li]),
            decreases states@.len() - t,
        {
            let collapsed = states[t];
            let ghost taken = states@.take(t as int);
            let ghost next = states@.take(t + 1);
            proof {
                assert forall|v: u8| #[trigger] next.contains(v) implies taken.contains(v) || v == collapsed by {
                    let k = choose|k: int| 0 <= k < next.len() && next[k] == v;
                    if k < t {
                        assert(taken[k] == v);
                    }
                }
            }
            let mut branch = Grid { cells: grid.cells };
            match branch.update_collapse(location, collapsed) {
                Ok(()) => {
                    proof {
                        lemma_branch(cur, branch.cells@, li, collapsed);
                    }
                    let ghost bcells = branch.cells@;
                    match solve_bruteforce_internal(branch) {
                        Ok(solved_grid) => {
                            proof {
                                let sc = solved_grid.cells@;
                                assert(admits(bcells, grid_digits(sc)));
                                assert forall|i: int| 0 <= i < 81 && (#[trigger] cur[i]) is Certain implies sc[i] == cur[i] by {
                                    assert(crate::propagation::cell_refines(cur[i], bcells[i]));
                                }
                            }
                            return Ok(solved_grid);
                        },
                        Err(()) => {
                            proof {
                                assert forall|s: Seq<u8>| #[trigger] admits(cur, s) implies !next.contains(s[li]) by {
                                    if s[li] == collapsed {
                                        assert(admits(bcells, s));
                                    }
                                }
                            }
                        },
                    }
                },
                Err(()) => {
                    proof {
                        assert forall|s: Seq<u8>| #[trigger] admits(cur, s) implies !next.contains(s[li]) by {
                            if s[li] == collapsed {
                                assert(admits(cur, s) && s[li] == collapsed);
                            }
                        }
                    }
                },
            }
            t = t + 1;
        }
        proof {
            assert(states@.take(states@.len() as int) =~= states@);
            assert forall|s: Seq<u8>| !admits(cur, s) by {
                if admits(cur, s) {
                    assert(crate::grid::cell_allows(cur[li], s[li] as int));
                    assert(1 <= s[li] <= 9);
                        assert(wave.states_seq().contains((s[li] as int) as u8));
                }
            }
        }
    }
    Err(())
}

} // verus!
