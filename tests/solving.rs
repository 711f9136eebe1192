use wfc_sudoku::bruteforce_backtracking;
use wfc_sudoku::neighboring_waves_intersection::{self, has_unique_solution};
use wfc_sudoku::solver::{pass_wave_group, GroupKind};
use wfc_sudoku::{initialize_waves, solve_with, Cell, Grid, Location, SolvingAlgorithms, WaveFunction};

const CLASSIC: [u8; 81] = [
    5, 3, 4, 6, 7, 8, 9, 1, 2, //
    6, 7, 2, 1, 9, 5, 3, 4, 8, //
    1, 9, 8, 3, 4, 2, 5, 6, 7, //
    8, 5, 9, 7, 6, 1, 4, 2, 3, //
    4, 2, 6, 8, 5, 3, 7, 9, 1, //
    7, 1, 3, 9, 2, 4, 8, 5, 6, //
    9, 6, 1, 5, 3, 7, 2, 8, 4, //
    2, 8, 7, 4, 1, 9, 6, 3, 5, //
    3, 4, 5, 2, 8, 6, 1, 7, 9, //
];

/// The classic puzzle whose solution is `CLASSIC`; `0` is a blank cell.
const PUZZLE: [u8; 81] = [
    5, 3, 0, 0, 7, 0, 0, 0, 0, //
    6, 0, 0, 1, 9, 5, 0, 0, 0, //
    0, 9, 8, 0, 0, 0, 0, 6, 0, //
    8, 0, 0, 0, 6, 0, 0, 0, 3, //
    4, 0, 0, 8, 0, 3, 0, 0, 1, //
    7, 0, 0, 0, 2, 0, 0, 0, 6, //
    0, 6, 0, 0, 0, 0, 2, 8, 0, //
    0, 0, 0, 4, 1, 9, 0, 0, 5, //
    0, 0, 0, 0, 8, 0, 0, 7, 9, //
];

fn board(digits: &[u8; 81]) -> Grid {
    let mut cells = [Cell::Blank; 81];
    for (i, &d) in digits.iter().enumerate() {
        if d != 0 {
            cells[i] = Cell::Certain { digit: d };
        }
    }
    Grid::new_from_cells(Box::new(cells))
}

fn assert_solves(puzzle: &Grid, solved: &Grid) {
    assert!(solved.is_solved());
    assert!(solved.check_valid());
    for i in 0..81 {
        if let Cell::Certain { digit } = puzzle.get_index(i) {
            assert_eq!(solved.get_index(i), Cell::Certain { digit });
        }
    }
}

#[test]
fn check_neighboring_waves_intersection() {
    let mut boards = vec![board(&PUZZLE), board(&CLASSIC)];
    for _ in 0..3 {
        boards.push(Grid::new_random().with_random_blank_cells(45));
    }
    for b in boards.iter() {
        let solved = solve_with(b, SolvingAlgorithms::NeighboringWavesIntersection);
        assert_solves(b, &solved);
    }
}

#[test]
fn both_solvers_solve_the_classic_puzzle() {
    let puzzle = board(&PUZZLE);
    let by_intersection = neighboring_waves_intersection::solve(&puzzle);
    let by_search = bruteforce_backtracking::solve(&puzzle);
    assert_eq!(by_intersection, board(&CLASSIC));
    assert_eq!(by_search, board(&CLASSIC));
    assert_solves(&puzzle, &by_search);
    assert_eq!(solve_with(&puzzle, SolvingAlgorithms::BruteforceBacktracking), board(&CLASSIC));
    assert_eq!(SolvingAlgorithms::default(), SolvingAlgorithms::NeighboringWavesIntersection);
}

#[test]
fn both_solvers_fill_an_empty_board() {
    let empty = board(&[0; 81]);
    assert_solves(&empty, &solve_with(&empty, SolvingAlgorithms::NeighboringWavesIntersection));
    assert_solves(&empty, &solve_with(&empty, SolvingAlgorithms::BruteforceBacktracking));
}

#[test]
fn search_tries_digits_in_ascending_order() {
    // An empty board has many solutions; the search picks the smallest digit
    // first, so the first row comes out in order.
    let solved = bruteforce_backtracking::solve(&board(&[0; 81]));
    for c in 0..9u8 {
        assert_eq!(solved.get_at(Location { row: 0, column: c }), Cell::Certain { digit: c + 1 });
    }
}

#[test]
fn one_blank_is_uniquely_solvable() {
    for i in [0usize, 40, 80] {
        let mut digits = CLASSIC;
        digits[i] = 0;
        assert!(has_unique_solution(&board(&digits)));
    }
    assert!(has_unique_solution(&board(&CLASSIC)));
    assert!(has_unique_solution(&board(&PUZZLE)));
}

#[test]
fn few_givens_are_not_unique() {
    assert!(!has_unique_solution(&board(&[0; 81])));
    let mut digits = [0u8; 81];
    digits[..9].copy_from_slice(&CLASSIC[..9]);
    assert!(!has_unique_solution(&board(&digits)));
}

#[test]
fn invalid_board_has_no_solution() {
    let mut digits = CLASSIC;
    digits[1] = 5;
    assert!(!has_unique_solution(&board(&digits)));
    let mut digits = PUZZLE;
    digits[2] = 5;
    assert!(!has_unique_solution(&board(&digits)));
}

#[test]
fn collapse_removes_the_digit_from_the_sector() {
    let mut grid = Grid::new_max_entropy();
    let center = Location { row: 0, column: 0 };
    let wave = WaveFunction::new_possibilities(&[3, 1, 5]);
    assert_eq!(wave.collapse_first(), Some(1));
    grid.set_at(center, Cell::Uncertain { wave });
    assert_eq!(grid.update_collapse(center, 1), Ok(()));
    assert_eq!(grid.get_at(center), Cell::Certain { digit: 1 });
    let mut it = wfc_sudoku::iter_sector(center);
    while let Some(n) = it.next() {
        if n != center {
            match grid.get_at(n) {
                Cell::Uncertain { wave } => assert!(!wave.states().contains(&1)),
                other => panic!("unexpected {:?}", other),
            }
        }
    }
    assert_eq!(grid.get_at(Location { row: 4, column: 4 }), Cell::new_max_entropy());
}

#[test]
fn single_uncertain_cell_collapses() {
    let mut grid = board(&[0; 81]);
    let l = Location { row: 5, column: 2 };
    let wave = WaveFunction::new_possibilities(&[3, 1, 5]);
    grid.set_at(l, Cell::Uncertain { wave });
    assert_eq!(wave.collapse_first(), Some(1));
    assert_eq!(grid.update_collapse(l, 1), Ok(()));
    assert_eq!(grid.get_at(l), Cell::Certain { digit: 1 });
    for i in 0..81 {
        if i != l.into_index() {
            assert_eq!(grid.get_index(i), Cell::Blank);
        }
    }
}

#[test]
fn collapse_cascades_forced_cells() {
    let mut grid = Grid::new_max_entropy();
    let a = Location { row: 0, column: 1 };
    grid.set_at(a, Cell::Uncertain { wave: WaveFunction::new_possibilities(&[1, 2]) });
    assert_eq!(grid.update_collapse(Location { row: 0, column: 0 }, 1), Ok(()));
    assert_eq!(grid.get_at(a), Cell::Certain { digit: 2 });
    for i in 0..81 {
        if let Cell::Uncertain { wave } = grid.get_index(i) {
            assert!(wave.entropy() >= 2 && wave.entropy() <= 9);
        }
    }
}

#[test]
fn collapse_reports_contradictions() {
    let mut digits = [0u8; 81];
    digits[8] = 4;
    let mut grid = board(&digits);
    assert_eq!(grid.update_collapse(Location { row: 0, column: 0 }, 4), Err(()));

    let mut grid = board(&CLASSIC);
    assert_eq!(grid.update_collapse(Location { row: 0, column: 0 }, 5), Ok(()));
    assert_eq!(grid.update_collapse(Location { row: 0, column: 0 }, 6), Err(()));

    let mut grid = board(&[0; 81]);
    grid.set_at(Location { row: 0, column: 1 }, Cell::Uncertain { wave: WaveFunction::new_possibilities(&[2]) });
    assert_eq!(grid.update_collapse(Location { row: 0, column: 0 }, 2), Err(()));
}

#[test]
fn waves_are_computed_from_certain_neighbors() {
    let grid = board(&PUZZLE);
    let wave = grid.wave_at(Location { row: 0, column: 2 });
    assert_eq!(wave.states(), vec![1, 2, 4]);
    assert_eq!(wave.entropy(), 3);
    assert_eq!(grid.wave_at(Location { row: 4, column: 4 }).states(), vec![5]);
}

#[test]
fn initialized_waves_are_settled() {
    let mut grid = board(&PUZZLE);
    assert_eq!(initialize_waves(&mut grid), Ok(()));
    for i in 0..81 {
        match grid.get_index(i) {
            Cell::Certain { .. } => {}
            Cell::Uncertain { wave } => assert!(wave.entropy() >= 2 && wave.entropy() <= 9),
            Cell::Blank => panic!("blank left"),
        }
    }
    assert_eq!(grid.get_at(Location { row: 4, column: 4 }), Cell::Certain { digit: 5 });
}

#[test]
fn initialization_reports_an_empty_wave() {
    let mut digits = [0u8; 81];
    for c in 1..9 {
        digits[c] = c as u8;
    }
    digits[9] = 9;
    let mut grid = board(&digits);
    assert_eq!(initialize_waves(&mut grid), Err(()));
}

#[test]
fn group_pass_places_hidden_singles() {
    let mut grid = board(&PUZZLE);
    assert_eq!(initialize_waves(&mut grid), Ok(()));
    let before = grid.clone();
    let changed = pass_wave_group(&mut grid, GroupKind::Rows).unwrap();
    let fixed_before = before.cells.iter().filter(|c| matches!(c, Cell::Certain { .. })).count();
    let fixed_after = grid.cells.iter().filter(|c| matches!(c, Cell::Certain { .. })).count();
    assert_eq!(changed, fixed_after > fixed_before);
    assert!(grid.check_valid());
}

#[test]
fn lowest_entropy_picks_the_first_smallest_wave() {
    let mut grid = Grid::new_max_entropy();
    assert_eq!(grid.lowest_entropy().unwrap().0, Location { row: 0, column: 0 });
    grid.set_index(30, Cell::Uncertain { wave: WaveFunction::new_possibilities(&[1, 2, 3]) });
    grid.set_index(50, Cell::Uncertain { wave: WaveFunction::new_possibilities(&[4, 5, 6]) });
    assert_eq!(grid.lowest_entropy().unwrap().0, Location::from_index(30));
    grid.set_index(60, Cell::Uncertain { wave: WaveFunction::new_possibilities(&[7, 8]) });
    assert_eq!(grid.lowest_entropy().unwrap().0, Location::from_index(60));
    assert!(board(&CLASSIC).lowest_entropy().is_none());
}

#[test]
fn lowest_entropy_except_skips_visited_cells() {
    let mut grid = board(&CLASSIC);
    let mut visited = [false; 81];
    assert_eq!(grid.lowest_entropy_except(&visited), Ok(None));
    grid.set_index(3, Cell::Uncertain { wave: WaveFunction::new_possibilities(&[6, 7]) });
    grid.set_index(7, Cell::Uncertain { wave: WaveFunction::new_possibilities(&[1, 2, 4]) });
    assert_eq!(grid.lowest_entropy_except(&visited).unwrap().unwrap().0, Location::from_index(3));
    visited[3] = true;
    assert_eq!(grid.lowest_entropy_except(&visited).unwrap().unwrap().0, Location::from_index(7));
    visited[7] = true;
    assert_eq!(grid.lowest_entropy_except(&visited), Err(()));
}

#[test]
fn wave_queries() {
    let mut wave = WaveFunction::new_max_entropy();
    assert_eq!(wave.entropy(), 9);
    assert_eq!(wave.collapsed(), None);
    wave.remove_possibility(4);
    wave.remove_possibility(4);
    assert_eq!(wave.entropy(), 8);
    assert_eq!(wave.states(), vec![1, 2, 3, 5, 6, 7, 8, 9]);
    let single = WaveFunction::new_possibilities(&[7, 7]);
    assert_eq!(single.entropy(), 1);
    assert_eq!(single.collapsed(), Some(7));
    let empty = WaveFunction::new_possibilities(&[]);
    assert_eq!(empty.collapsed(), None);
    assert_eq!(empty.collapse_first(), None);
    assert_eq!(WaveFunction::new_possibilities(&[9, 4]).collapse_first(), Some(4));
}

#[test]
fn try_solve_reports_unsolvable_boards() {
    let puzzle = board(&PUZZLE);
    assert_eq!(
        wfc_sudoku::try_solve_with(&puzzle, SolvingAlgorithms::NeighboringWavesIntersection),
        Some(board(&CLASSIC))
    );
    assert_eq!(wfc_sudoku::try_solve_with(&puzzle, SolvingAlgorithms::BruteforceBacktracking), Some(board(&CLASSIC)));
    // A digit repeated in the first row leaves no solution.
    let mut digits = PUZZLE;
    digits[8] = 5;
    assert_eq!(wfc_sudoku::try_solve_with(&board(&digits), SolvingAlgorithms::NeighboringWavesIntersection), None);
    assert_eq!(wfc_sudoku::try_solve_with(&board(&digits), SolvingAlgorithms::BruteforceBacktracking), None);
}

#[test]
fn try_solve_reports_a_dead_end() {
    // No digit repeats, but the first cell is left with no possibility.
    let mut digits = [0u8; 81];
    for c in 1..9 {
        digits[c] = c as u8;
    }
    digits[9] = 9;
    let b = board(&digits);
    assert!(b.check_valid());
    assert_eq!(wfc_sudoku::try_solve_with(&b, SolvingAlgorithms::NeighboringWavesIntersection), None);
    assert_eq!(wfc_sudoku::try_solve_with(&b, SolvingAlgorithms::BruteforceBacktracking), None);
}

#[test]
fn blank_in_order_follows_the_order_and_the_cap() {
    let classic = board(&CLASSIC);
    let order: Vec<usize> = vec![40, 0, 80, 9];
    let two = classic.blank_in_order(&order, 2);
    for i in 0..81 {
        if i == 40 || i == 0 {
            assert_eq!(two.get_index(i), Cell::Blank);
        } else {
            assert_eq!(two.get_index(i), classic.get_index(i));
        }
    }
    assert_eq!(classic.blank_in_order(&order, 0), classic);
    let all = classic.blank_in_order(&order, 81);
    for &i in order.iter() {
        assert_eq!(all.get_index(i), Cell::Blank);
    }
    assert!(has_unique_solution(&all));
}

#[test]
fn collapse_on_a_fixed_cell() {
    let classic = board(&CLASSIC);
    let mut grid = classic.clone();
    assert_eq!(grid.update_collapse(Location { row: 2, column: 3 }, 3), Ok(()));
    assert_eq!(grid, classic);
    assert_eq!(grid.update_collapse(Location { row: 2, column: 3 }, 4), Err(()));
}
