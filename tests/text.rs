use wfc_sudoku::{
    display_horizontal_box_separator, display_horizontal_normal_separator, Cell, Grid, ParseError,
    WaveFunction,
};

const CLASSIC: [u8; 81] = [
    5, 3, 4, 6, 7, 8, 9, 1, 2, //
    6, 7, 2, 1, 9, 5, 3, 4, 8, //
    1, 9, 8, 3, 4, 2, 5, 6, 7, //
    8, 5, 9, 7, 6, 1, 4, 2, 3, //
    4, 2, 6, 8, 5, 3, 7, 9, 1, //
    7, 1, 3, 9, 2, 4, 8, 5, 6, //
    9, 6, 1, 5, 3, 7, 2, 8, 4, //
    2, 8, 7, 4, 1, 9, 6, 3, 5, //
    3, 4, 5, 2, 8, 6, 1, 7, 9, //
];

fn board(digits: &[u8; 81]) -> Grid {
    let mut cells = [Cell::Blank; 81];
    for (i, &d) in digits.iter().enumerate() {
        if d != 0 {
            cells[i] = Cell::Certain { digit: d };
        }
    }
    Grid::new_from_cells(Box::new(cells))
}

fn classic_text() -> String {
    CLASSIC.iter().map(|d| d.to_string()).collect::<Vec<String>>().join(",")
}

#[test]
fn serialize_writes_tokens() {
    assert_eq!(board(&CLASSIC).serialize_to_string(), classic_text());
    let mut cells = board(&CLASSIC).cells;
    cells[0] = Cell::Uncertain { wave: WaveFunction::new_possibilities(&[5, 1, 3]) };
    cells[1] = Cell::Blank;
    let text = Grid::new_from_cells(Box::new(cells)).serialize_to_string();
    assert!(text.starts_with("(1,3,5),(),4,6,"));
}

#[test]
fn round_trip_of_complete_boards() {
    let classic = board(&CLASSIC);
    assert_eq!(Grid::deserialize_from_string(&classic.serialize_to_string()), Ok(classic));
    for _ in 0..10 {
        let b = Grid::new_random();
        assert_eq!(Grid::deserialize_from_string(&b.serialize_to_string()), Ok(b));
    }
}

#[test]
fn round_trip_with_waves_and_blanks() {
    let mut cells = board(&CLASSIC).cells;
    cells[5] = Cell::Uncertain { wave: WaveFunction::new_possibilities(&[2, 8]) };
    cells[80] = Cell::Blank;
    let b = Grid::new_from_cells(Box::new(cells));
    assert_eq!(Grid::deserialize_from_string(&b.serialize_to_string()), Ok(b));
}

#[test]
fn deserialize_accepts_spacing() {
    let spaced = classic_text().replace(',', ", ") + "\n";
    assert_eq!(Grid::deserialize_from_string(&spaced), Ok(board(&CLASSIC)));
}

#[test]
fn deserialize_errors() {
    let tail = ",1".repeat(80);
    assert_eq!(
        Grid::deserialize_from_string(&format!("((1){}", tail)),
        Err(ParseError::NestedOpen { index: 1 })
    );
    assert_eq!(
        Grid::deserialize_from_string("1(2)"),
        Err(ParseError::UnexpectedAfter { index: 1, token: '(', after: '1' })
    );
    assert_eq!(
        Grid::deserialize_from_string(",1"),
        Err(ParseError::UnexpectedAfter { index: 0, token: ',', after: ',' })
    );
    assert_eq!(Grid::deserialize_from_string("1)"), Err(ParseError::CloseOutside { index: 1 }));
    assert_eq!(Grid::deserialize_from_string("1,0"), Err(ParseError::ZeroDigit { index: 2 }));
    assert_eq!(
        Grid::deserialize_from_string("1,x"),
        Err(ParseError::UnexpectedToken { index: 2, token: 'x' })
    );
    assert_eq!(Grid::deserialize_from_string("1,(2"), Err(ParseError::Unclosed));
    assert_eq!(
        Grid::deserialize_from_string(&format!("{},7", classic_text())),
        Err(ParseError::TrailingToken { index: 161, token: ',' })
    );
    assert_eq!(Grid::deserialize_from_string("1,2"), Err(ParseError::TooFewCells { count: 2 }));
}

#[test]
fn deserialize_reads_waves() {
    let text = format!("(3,1),(){}", ",9".repeat(79));
    let grid = Grid::deserialize_from_string(&text).unwrap();
    assert_eq!(grid.get_index(0), Cell::Uncertain { wave: WaveFunction::new_possibilities(&[1, 3]) });
    assert_eq!(grid.get_index(1), Cell::Blank);
    assert_eq!(grid.get_index(2), Cell::Certain { digit: 9 });
}

#[test]
fn cell_lines() {
    let certain = Cell::Certain { digit: 7 };
    assert_eq!(certain.display_row(0), "       ");
    assert_eq!(certain.display_row(1), "   7   ");
    let wave = Cell::Uncertain { wave: WaveFunction::new_possibilities(&[1, 3, 5, 9]) };
    assert_eq!(wave.display_row(0), " 1   3 ");
    assert_eq!(wave.display_row(1), "   5   ");
    assert_eq!(wave.display_row(2), "     9 ");
    assert_eq!(Cell::Blank.display_row(2), "       ");
}

#[test]
fn board_lines() {
    let b = board(&CLASSIC);
    assert_eq!(
        b.display_row(0, 1),
        "||   5   |   3   |   4   ||   6   |   7   |   8   ||   9   |   1   |   2   ||\n"
    );
    let box_line = format!("||{}||\n", "=".repeat(73));
    let normal_line = format!("||{}||\n", "-".repeat(73));
    assert_eq!(display_horizontal_box_separator(), box_line);
    assert_eq!(display_horizontal_normal_separator(), normal_line);
    let text = b.display_text();
    assert_eq!(text.lines().count(), 1 + 9 * 4);
    assert!(text.starts_with(&box_line));
    assert!(text.ends_with(&box_line));
}
