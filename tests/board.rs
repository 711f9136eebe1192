use std::collections::HashSet;

use wfc_sudoku::{
    iter_box, iter_column, iter_row, iter_sector, Cell, Grid, Location, Vec2, WaveFunction,
};

const CLASSIC: [u8; 81] = [
    5, 3, 4, 6, 7, 8, 9, 1, 2, //
    6, 7, 2, 1, 9, 5, 3, 4, 8, //
    1, 9, 8, 3, 4, 2, 5, 6, 7, //
    8, 5, 9, 7, 6, 1, 4, 2, 3, //
    4, 2, 6, 8, 5, 3, 7, 9, 1, //
    7, 1, 3, 9, 2, 4, 8, 5, 6, //
    9, 6, 1, 5, 3, 7, 2, 8, 4, //
    2, 8, 7, 4, 1, 9, 6, 3, 5, //
    3, 4, 5, 2, 8, 6, 1, 7, 9, //
];

/// A board from digits, `0` standing for a blank cell.
fn board(digits: &[u8; 81]) -> Grid {
    let mut cells = [Cell::Blank; 81];
    for (i, &d) in digits.iter().enumerate() {
        if d != 0 {
            cells[i] = Cell::Certain { digit: d };
        }
    }
    Grid::new_from_cells(Box::new(cells))
}

fn loc(row: u8, column: u8) -> Location {
    Location { row, column }
}

#[test]
fn wave_function_random_collapse() {
    let mut rng = rand::thread_rng();
    let wave = WaveFunction::new_possibilities(&[1, 3, 5, 8, 9]);
    assert!(wave.collapse_random(&mut rng).is_some());
    let empty_wave = WaveFunction::new_possibilities(&[]);
    assert!(empty_wave.collapse_random(&mut rng).is_none());
}

#[test]
fn collapse_random_draws_a_possible_digit() {
    let mut rng = rand::thread_rng();
    let wave = WaveFunction::new_possibilities(&[2, 7]);
    for _ in 0..200 {
        let d = wave.collapse_random(&mut rng).unwrap();
        assert!(d == 2 || d == 7);
    }
    let single = WaveFunction::new_possibilities(&[6]);
    assert_eq!(single.collapse_random(&mut rng), Some(6));
}

#[test]
fn check_valid_generation() {
    for _ in 0..1000 {
        assert!(Grid::new_random().check_valid());
    }
}

#[test]
fn random_board_is_complete_and_valid() {
    for _ in 0..20 {
        let b = Grid::new_random();
        assert!(b.is_solved());
        assert!(b.check_valid());
        for i in 0..81 {
            assert!(matches!(b.get_index(i), Cell::Certain { digit } if (1..=9).contains(&digit)));
        }
    }
}

#[test]
fn create_board() {
    let mut repeated = [0u8; 81];
    for i in 0..81 {
        repeated[i] = (i % 9) as u8 + 1;
    }
    assert!(!board(&repeated).check_valid());

    assert!(board(&CLASSIC).check_valid());

    let mut cells = board(&CLASSIC).cells;
    cells[1] = Cell::Uncertain { wave: WaveFunction::new_possibilities(&[3]) };
    cells[11] = Cell::Uncertain { wave: WaveFunction::new_possibilities(&[5, 3, 1]) };
    cells[23] = Cell::Uncertain { wave: WaveFunction::new_possibilities(&[1, 3, 6]) };
    assert!(Grid::new_from_cells(Box::new(cells)).check_valid());
}

#[test]
fn check_valid_sees_a_box_repeat() {
    let mut digits = [0u8; 81];
    digits[0] = 4;
    digits[10] = 4;
    assert!(!board(&digits).check_valid());
    digits[10] = 5;
    assert!(board(&digits).check_valid());
}

#[test]
fn check_blank_cells() {
    let b = Grid::new_random();
    let cap = 30;
    let with_blanks = b.with_random_blank_cells(cap);
    let blanks = with_blanks.cells.iter().filter(|cell| matches!(cell, Cell::Blank)).count();
    assert!(cap >= blanks as u8);
}

#[test]
fn blanking_keeps_digits_and_uniqueness() {
    let b = board(&CLASSIC);
    let with_blanks = b.with_random_blank_cells(40);
    for i in 0..81 {
        let c = with_blanks.get_index(i);
        assert!(c == b.get_index(i) || c == Cell::Blank);
    }
    assert!(wfc_sudoku::neighboring_waves_intersection::has_unique_solution(&with_blanks));
    assert_eq!(b.with_random_blank_cells(0), b);
}

#[test]
fn check_sector_iterator() {
    let mut visited: HashSet<Location> = HashSet::new();
    let start = loc(0, 1);
    let mut it = iter_sector(start);
    while let Some(cell) = it.next() {
        println!("{:?}", cell);
        assert!(visited.insert(cell));
    }
    assert_eq!(visited.len(), 21);
}

#[test]
fn check_sector_iterator_order() {
    let mut it = iter_sector(loc(0, 1));
    assert_eq!(Some(loc(0, 0)), it.next());
    assert_eq!(Some(loc(0, 1)), it.next());
    assert_eq!(Some(loc(0, 2)), it.next());
    assert_eq!(Some(loc(0, 3)), it.next());
    assert_eq!(Some(loc(0, 4)), it.next());
    assert_eq!(Some(loc(0, 5)), it.next());
    assert_eq!(Some(loc(0, 6)), it.next());
    assert_eq!(Some(loc(0, 7)), it.next());
    assert_eq!(Some(loc(0, 8)), it.next());
    assert_eq!(Some(loc(1, 1)), it.next());
    assert_eq!(Some(loc(2, 1)), it.next());
    assert_eq!(Some(loc(3, 1)), it.next());
    assert_eq!(Some(loc(4, 1)), it.next());
    assert_eq!(Some(loc(5, 1)), it.next());
    assert_eq!(Some(loc(6, 1)), it.next());
    assert_eq!(Some(loc(7, 1)), it.next());
    assert_eq!(Some(loc(8, 1)), it.next());
    assert_eq!(Some(loc(1, 0)), it.next());
    assert_eq!(Some(loc(1, 2)), it.next());
    assert_eq!(Some(loc(2, 0)), it.next());
    assert_eq!(Some(loc(2, 2)), it.next());
    assert!(it.next().is_none());
}

#[test]
fn sector_covers_row_column_and_box_once() {
    for i in 0..81 {
        let center = Location::from_index(i);
        let mut seen: HashSet<Location> = HashSet::new();
        let mut it = iter_sector(center);
        while let Some(cell) = it.next() {
            assert!(seen.insert(cell));
        }
        assert_eq!(seen.len(), 21);
        for j in 0..81 {
            let l = Location::from_index(j);
            let related = l.row == center.row
                || l.column == center.column
                || (l.row / 3 == center.row / 3 && l.column / 3 == center.column / 3);
            assert_eq!(seen.contains(&l), related);
        }
    }
}

#[test]
fn check_row_iterator() {
    let mut visited: HashSet<Location> = HashSet::new();
    let mut it = iter_row(loc(0, 1));
    while let Some(cell) = it.next() {
        println!("{:?}", cell);
        assert!(visited.insert(cell));
    }
    assert_eq!(visited.len(), 9);
}

#[test]
fn check_row_iterator_order() {
    let mut it = iter_row(loc(0, 1));
    for column in 0..9 {
        assert_eq!(Some(loc(0, column)), it.next());
    }
    assert!(it.next().is_none());
}

#[test]
fn check_column_iterator() {
    let mut visited: HashSet<Location> = HashSet::new();
    let mut it = iter_column(loc(0, 1));
    while let Some(cell) = it.next() {
        println!("{:?}", cell);
        assert!(visited.insert(cell));
    }
    assert_eq!(visited.len(), 9);
}

#[test]
fn check_column_iterator_order() {
    let mut it = iter_column(loc(0, 1));
    for row in 0..9 {
        assert_eq!(Some(loc(row, 1)), it.next());
    }
    assert!(it.next().is_none());
}

#[test]
fn check_box_iterator() {
    let mut visited: HashSet<Location> = HashSet::new();
    let mut it = iter_box(loc(0, 1));
    while let Some(cell) = it.next() {
        println!("{:?}", cell);
        assert!(visited.insert(cell));
    }
    assert_eq!(visited.len(), 9);
}

#[test]
fn check_box_iterator_order() {
    let mut it = iter_box(loc(0, 1));
    assert_eq!(Some(loc(0, 0)), it.next());
    assert_eq!(Some(loc(0, 1)), it.next());
    assert_eq!(Some(loc(0, 2)), it.next());
    assert_eq!(Some(loc(1, 0)), it.next());
    assert_eq!(Some(loc(1, 1)), it.next());
    assert_eq!(Some(loc(1, 2)), it.next());
    assert_eq!(Some(loc(2, 0)), it.next());
    assert_eq!(Some(loc(2, 1)), it.next());
    assert_eq!(Some(loc(2, 2)), it.next());
    assert!(it.next().is_none());
}

#[test]
fn box_iterator_of_a_middle_cell() {
    let mut it = iter_box(loc(4, 7));
    let mut got = Vec::new();
    while let Some(cell) = it.next() {
        got.push(cell);
    }
    let expected: Vec<Location> = (3..6).flat_map(|r| (6..9).map(move |c| loc(r, c))).collect();
    assert_eq!(got, expected);
}

#[test]
fn groups_walk_every_row_column_and_box() {
    let mut rows = wfc_sudoku::iter_rows();
    let mut r = 0;
    while let Some(mut row) = rows.next() {
        for c in 0..9 {
            assert_eq!(row.next(), Some(loc(r, c)));
        }
        assert!(row.next().is_none());
        r += 1;
    }
    assert_eq!(r, 9);

    let mut columns = wfc_sudoku::iter_columns();
    let mut c = 0;
    while let Some(mut column) = columns.next() {
        for r in 0..9 {
            assert_eq!(column.next(), Some(loc(r, c)));
        }
        assert!(column.next().is_none());
        c += 1;
    }
    assert_eq!(c, 9);

    let mut boxes = wfc_sudoku::iter_boxes();
    let mut b = 0;
    while let Some(mut bx) = boxes.next() {
        for k in 0..9u8 {
            assert_eq!(bx.next(), Some(loc(b / 3 * 3 + k / 3, b % 3 * 3 + k % 3)));
        }
        assert!(bx.next().is_none());
        b += 1;
    }
    assert_eq!(b, 9);
}

#[test]
fn location_index_round_trip() {
    assert_eq!(Location::from_index(40), loc(4, 4));
    assert_eq!(Location::from_index(80), loc(8, 8));
    assert_eq!(Location::from_index(10), loc(1, 1));
    assert_eq!(loc(2, 7).into_index(), 25);
    for i in 0..81 {
        assert_eq!(Location::from_index(i).into_index(), i);
    }
}

#[test]
fn location_steps_stay_on_the_board() {
    assert_eq!(loc(3, 3).add(Vec2 { rows: 3, columns: -3 }), Some(loc(6, 0)));
    assert_eq!(loc(0, 0).add(Vec2 { rows: -1, columns: 0 }), None);
    assert_eq!(loc(8, 2).below(), None);
    assert_eq!(loc(7, 2).below(), Some(loc(8, 2)));
    assert_eq!(loc(4, 8).right(), None);
    assert_eq!(loc(4, 7).right(), Some(loc(4, 8)));
}

#[test]
fn blanking_order_is_random() {
    let b = board(&CLASSIC);
    let mut first_cell_every_time = true;
    for _ in 0..20 {
        let one = b.with_random_blank_cells(1);
        let blanks: Vec<usize> = (0..81).filter(|&i| one.get_index(i) == Cell::Blank).collect();
        assert_eq!(blanks.len(), 1);
        if blanks[0] != 0 {
            first_cell_every_time = false;
        }
    }
    assert!(!first_cell_every_time);
}
