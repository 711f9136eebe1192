//! Random boards: full random fills, and puzzles blanked from them.

use rand::seq::SliceRandom;
use rand::Rng;
use vstd::prelude::*;
use vstd::math::min;
use vstd::seq_lib::seq_to_set_is_finite;
use vstd::set_lib::lemma_len_subset;

use crate::cell::{Cell, Digit, WaveFunction};
use crate::grid::{
    all_certain, consistent, digits_in_range, is_solution, no_blank, peers, settled, solving_state,
    Grid,
};
use crate::location::{Location, CELL_COUNT};
use crate::neighboring_waves_intersection::{has_unique_solution, lemma_one_blank_unique, unique_solution};
use crate::propagation::cell_refines;

verus! {

#[verifier::external_type_specification]
#[verifier::external_body]
pub struct ExThreadRng(rand::rngs::ThreadRng);

/// Relies on `rand::thread_rng`: a handle on the thread-local generator.
pub assume_specification[ rand::thread_rng ]() -> rand::rngs::ThreadRng;

/// Relies on `rand::Rng::gen_range`: a value drawn from `0..bound`, which
/// panics only on an empty range.
#[verifier::external_body]
fn random_below(rng: &mut rand::rngs::ThreadRng, bound: usize) -> (r: usize)
    requires
        bound > 0,
    ensures
        r < bound,
{
    rng.gen_range(0..bound)
}

/// Relies on `rand::seq::SliceRandom::shuffle`: the same items in a random
/// order.
#[verifier::external_body]
fn shuffle_indices(v: &mut Vec<usize>, rng: &mut rand::rngs::ThreadRng)
    ensures
        final(v)@.to_multiset() == old(v)@.to_multiset(),
{
    v.shuffle(rng)
}

/// The cells in which two boards differ.
pub open spec fn changed_cells(a: Seq<Cell>, b: Seq<Cell>) -> Set<int> {
    Set::new(|i: int| 0 <= i < 81 && a[i] != b[i])
}

/// The first `n` indices of `order`, as a set.
pub open spec fn first_indices(order: Seq<usize>, n: int) -> Set<int> {
    order.take(n).map_values(|x: usize| x as int).to_set()
}

/// The board after blanking the cells of `order` greedily, one at a time
/// among the first `n`: each blank is kept when the board still has exactly
/// one solution, and undone otherwise.
pub open spec fn blanked_in_order(cells: Seq<Cell>, order: Seq<usize>, n: int) -> Seq<Cell>
    decreases n,
{
    if n <= 0 {
        cells
    } else {
        let prev = blanked_in_order(cells, order, n - 1);
        let tried = prev.update(order[n - 1] as int, Cell::Blank);
        if unique_solution(tried) {
            tried
        } else {
            prev
        }
    }
}

/// The digit the fallback board puts at cell `i`: row `r` is the first row
/// shifted left by `3 * (r % 3) + r / 3`.
pub open spec fn pattern_digit(i: int) -> int {
    let r = i / 9;
    let c = i % 9;
    (3 * (r % 3) + r / 3 + c) % 9 + 1
}

proof fn lemma_pattern_solution()
    ensures
        is_solution(Seq::new(81, |i: int| pattern_digit(i) as u8)),
{
    let s = Seq::new(81, |i: int| pattern_digit(i) as u8);
    assert forall|i: int, j: int| #[trigger] peers(i, j) implies s[i] != s[j] by {
        let r1 = i / 9;
        let c1 = i % 9;
        let r2 = j / 9;
        let c2 = j % 9;
        assert(Location::at_index(i).row == r1 && Location::at_index(i).column == c1);
        assert(Location::at_index(j).row == r2 && Location::at_index(j).column == c2);
        assert(0 <= r1 < 9 && 0 <= r2 < 9 && 0 <= c1 < 9 && 0 <= c2 < 9);
        assert(i == r1 * 9 + c1 && j == r2 * 9 + c2);
    }
}

impl WaveFunction {
    /// One of the possible digits, drawn uniformly; `None` when there is none.
    pub fn collapse_random(self, rng: &mut rand::rngs::ThreadRng) -> (r: Option<Digit>)
        ensures
            r is None <==> self.spec_entropy() == 0,
            r matches Some(d) ==> self.allows(d as int),
    {
        let possibilities = self.states();
        proof {
            self.lemma_states();
        }
        if possibilities.len() == 0 {
            return None;
        }
        let k = random_below(rng, possibilities.len());
        Some(possibilities[k])
    }
}

impl Grid {
    /// The fixed board of `pattern_digit`.
    fn pattern_board() -> (r: Grid)
        ensures
            r.cells@ == Seq::new(81, |i: int| Cell::Certain { digit: pattern_digit(i) as u8 }),
    {
        let mut grid = Grid { cells: [Cell::Blank; 81] };
        let mut i: usize = 0;
        while i < CELL_COUNT
            invariant
                i <= 81,
                forall|j: int| 0 <= j < i ==> #[trigger] grid.cells@[j] == (Cell::Certain { digit: pattern_digit(j) as u8 }),
            decreases 81 - i,
        {
            let r = i / 9;
            let c = i % 9;
            let digit = ((3 * (r % 3) + r / 3 + c) % 9 + 1) as u8;
            grid.cells[i] = Cell::Certain { digit };
            i = i + 1;
        }
        assert(grid.cells@ =~= Seq::new(81, |i: int| Cell::Certain { digit: pattern_digit(i) as u8 }));
        grid
    }

    /// One attempt at filling a board at random: in row-major order each cell
    /// still uncertain takes a random possible digit, which is propagated;
    /// `None` on a contradiction.
    fn try_random_fill(rng: &mut rand::rngs::ThreadRng) -> (r: Option<Grid>)
        ensures
            r matches Some(g) ==> all_certain(g.cells@) && consistent(g.cells@) && digits_in_range(g.cells@),
    {
        let mut grid = Grid::new_max_entropy();
        proof {
            assert forall|j: int| 0 <= j < 81 && (#[trigger] grid.cells@[j]) is Uncertain implies 2
                <= grid.cells@[j]->wave.spec_entropy() <= 9 by {
                let w = grid.cells@[j]->wave;
                w.lemma_states();
                assert(w.allows(1) && w.allows(9));
                assert(w.states_seq().contains((1int) as u8));
                assert(w.states_seq().contains((9int) as u8));
                let k1 = choose|k: int| 0 <= k < w.states_seq().len() && w.states_seq()[k] == 1u8;
                let k9 = choose|k: int| 0 <= k < w.states_seq().len() && w.states_seq()[k] == 9u8;
                assert(k1 != k9);
            }
        }
        let mut i: usize = 0;
        while i < CELL_COUNT
            invariant
                i <= 81,
                grid.cells@.len() == 81,
                solving_state(grid.cells@),
                no_blank(grid.cells@),
                forall|j: int| 0 <= j < i ==> (#[trigger] grid.cells@[j]) is Certain,
            decreases 81 - i,
        {
            let ghost cur = grid.cells@;
            match grid.get_index(i) {
                Cell::Uncertain { wave } => {
                    let collapsed = match wave.collapse_random(rng) {
                        Some(d) => d,
                        None => {
                            proof {
                                assert(cur[i as int] is Uncertain);
                            }
                            return None;
                        },
                    };
                    let location = Location::from_index(i);
                    match grid.update_collapse(location, collapsed) {
                        Ok(()) => {},
                        Err(()) => {
                            return None;
                        },
                    }
                    proof {
                        let new = grid.cells@;
                        assert forall|j: int| 0 <= j < 81 implies !(#[trigger] new[j] is Blank) by {
                            if j != i {
                                assert(cell_refines(cur[j], new[j]));
                            }
                        }
                        assert forall|j: int| 0 <= j < i + 1 implies (#[trigger] new[j]) is Certain by {
                            if j != i {
                                assert(cell_refines(cur[j], new[j]));
                            }
                        }
                    }
                },
                Cell::Certain { .. } => {},
                Cell::Blank => {
                    proof {
                        assert(!(cur[i as int] is Blank));
                    }
                },
            }
            i = i + 1;
        }
        Some(grid)
    }

    /// A random complete board. Attempts restart from scratch on every
    /// contradiction; they are counted so that the search provably ends, and
    /// past `u64::MAX` failed attempts a fixed valid board is returned.
    pub fn new_random() -> (r: Grid)
        ensures
            all_certain(r.cells@),
            consistent(r.cells@),
            digits_in_range(r.cells@),
    {
        let mut rng = rand::thread_rng();
        let mut attempts: u64 = 0;
        while attempts < u64::MAX
            decreases u64::MAX - attempts,
        {
            attempts = attempts + 1;
            match Grid::try_random_fill(&mut rng) {
                Some(grid) => {
                    return grid;
                },
                None => {},
            }
        }
        let grid = Grid::pattern_board();
        proof {
            let s = Seq::new(81, |i: int| pattern_digit(i) as u8);
            lemma_pattern_solution();
            assert forall|i: int, j: int|
                #[trigger] peers(i, j) && grid.cells@[i] is Certain && grid.cells@[j] is Certain implies grid.cells@[i]->digit
                    != grid.cells@[j]->digit by {
                assert(s[i] != s[j]);
            }
            assert forall|i: int| 0 <= i < 81 implies (#[trigger] grid.cells@[i]) is Certain by {}
            assert forall|i: int| 0 <= i < 81 && (#[trigger] grid.cells@[i]) is Certain implies 1 <= grid.cells@[i]->digit <= 9 by {
                assert(1 <= s[i] <= 9);
            }
        }
        grid
    }

    /// The board after the greedy blanking of `blanked_in_order`, over the
    /// first `blank_cell_cap` cells of `order` (all of them if it is shorter).
    pub fn blank_in_order(&self, order: &Vec<usize>, blank_cell_cap: u8) -> (r: Grid)
        requires
            digits_in_range(self.cells@),
            settled(self.cells@),
            forall|k: int| 0 <= k < order@.len() ==> #[trigger] order@[k] < 81,
        ensures
            r.cells@ == blanked_in_order(self.cells@, order@, min(blank_cell_cap as int, order@.len() as int)),
            forall|i: int| 0 <= i < 81 && r.cells@[i] != self.cells@[i] ==> (#[trigger] r.cells@[i]) is Blank,
            changed_cells(self.cells@, r.cells@).finite(),
            changed_cells(self.cells@, r.cells@).len() <= blank_cell_cap,
            unique_solution(self.cells@) ==> unique_solution(r.cells@),
            blank_cell_cap > 0 && order@.len() > 0 && all_certain(self.cells@) && consistent(self.cells@)
                ==> r.cells@[order@[0] as int] is Blank,
    {
        let mut new_grid = Grid { cells: self.cells };
        let mut cleared: usize = 0;
        while cleared < order.len()
            invariant
                forall|k: int| 0 <= k < order@.len() ==> #[trigger] order@[k] < 81,
                cleared <= order@.len(),
                cleared <= blank_cell_cap,
                new_grid.cells@ == blanked_in_order(self.cells@, order@, cleared as int),
                digits_in_range(new_grid.cells@),
                settled(new_grid.cells@),
                forall|j: int| 0 <= j < 81 && new_grid.cells@[j] != self.cells@[j] ==> (#[trigger] new_grid.cells@[j]) is Blank,
                changed_cells(self.cells@, new_grid.cells@).subset_of(first_indices(order@, cleared as int)),
                unique_solution(self.cells@) ==> unique_solution(new_grid.cells@),
                cleared > 0 && all_certain(self.cells@) && consistent(self.cells@) ==> new_grid.cells@[order@[0] as int] is Blank,
            ensures
                cleared == blank_cell_cap || cleared == order@.len(),
            decreases order@.len() - cleared,
        {
            if blank_cell_cap as usize == cleared {
                break;
            }
            let i = order[cleared];
            let ghost prev = new_grid.cells@;
            let old_cell_state = new_grid.get_index(i);
            new_grid.set_index(i, Cell::Blank);
            let ghost tried = new_grid.cells@;
            proof {
                if cleared == 0 && all_certain(self.cells@) && consistent(self.cells@) {
                    assert(prev == self.cells@);
                    lemma_one_blank_unique(self.cells@, i as int);
                }
            }
            if !has_unique_solution(&new_grid) {
                new_grid.set_index(i, old_cell_state);
                assert(new_grid.cells@ =~= prev);
            }
            proof {
                assert(blanked_in_order(self.cells@, order@, cleared + 1) == (if unique_solution(tried) {
                    tried
                } else {
                    prev
                }));
                let grown = first_indices(order@, cleared + 1);
                let ts = order@.take(cleared as int).map_values(|x: usize| x as int);
                let tg = order@.take(cleared + 1).map_values(|x: usize| x as int);
                assert(tg[cleared as int] == i as int);
                assert forall|j: int| changed_cells(self.cells@, new_grid.cells@).contains(j) implies grown.contains(j) by {
                    if j != i {
                        assert(first_indices(order@, cleared as int).contains(j));
                        assert(ts.contains(j));
                        let k = choose|k: int| 0 <= k < ts.len() && ts[k] == j;
                        assert(tg[k] == j);
                        assert(tg.contains(j));
                    } else {
                        assert(tg.contains(j));
                    }
                }
            }
            cleared = cleared + 1;
        }
        proof {
            let t = order@.take(cleared as int).map_values(|x: usize| x as int);
            t.lemma_cardinality_of_set();
            seq_to_set_is_finite(t);
            lemma_len_subset(changed_cells(self.cells@, new_grid.cells@), first_indices(order@, cleared as int));
        }
        new_grid
    }

    /// A copy of the board with up to `blank_cell_cap` cells blanked: the
    /// cells are visited in a random order, and the first `blank_cell_cap` of
    /// them are blanked in turn, each blank kept only while the board still
    /// has exactly one solution.
    pub fn with_random_blank_cells(&self, blank_cell_cap: u8) -> (r: Grid)
        requires
            digits_in_range(self.cells@),
            settled(self.cells@),
        ensures
            exists|order: Seq<usize>|
                order.to_multiset() == Seq::new(81, |i: int| i as usize).to_multiset() && r.cells@
                    == #[trigger] blanked_in_order(self.cells@, order, min(blank_cell_cap as int, 81)),
            forall|i: int| 0 <= i < 81 && r.cells@[i] != self.cells@[i] ==> (#[trigger] r.cells@[i]) is Blank,
            changed_cells(self.cells@, r.cells@).finite(),
            changed_cells(self.cells@, r.cells@).len() <= blank_cell_cap,
            unique_solution(self.cells@) ==> unique_solution(r.cells@),
            blank_cell_cap > 0 && all_certain(self.cells@) && consistent(self.cells@) ==> exists|i: int|
                0 <= i < 81 && (#[trigger] r.cells@[i]) is Blank,
    {
        let mut rng = rand::thread_rng();
        let mut cells: Vec<usize> = Vec::new();
        let mut i: usize = 0;
        while i < CELL_COUNT
            invariant
                i <= 81,
                cells@.len() == i,
                forall|k: int| 0 <= k < i ==> #[trigger] cells@[k] == k,
            decreases 81 - i,
        {
            cells.push(i);
            i = i + 1;
        }
        let ghost before = cells@;
        proof {
            assert(before =~= Seq::new(81, |i: int| i as usize));
        }
        shuffle_indices(&mut cells, &mut rng);
        proof {
            broadcast use vstd::seq_lib::group_to_multiset_ensures;
            assert(cells@.len() == before.to_multiset().len());
            assert forall|k: int| 0 <= k < cells@.len() implies #[trigger] cells@[k] < 81 by {
                let x = cells@[k];
                assert(cells@.contains(x));
                assert(before.to_multiset().count(x) > 0);
                assert(before.contains(x));
            }
        }
        let r = self.blank_in_order(&cells, blank_cell_cap);
        proof {
            assert(cells@.to_multiset() == Seq::new(81, |i: int| i as usize).to_multiset());
            if blank_cell_cap > 0 && all_certain(self.cells@) && consistent(self.cells@) {
                assert(r.cells@[cells@[0] as int] is Blank);
            }
        }
        r
    }
}

} // verus!
