//! Generation, validation and solving of 9×9 Sudoku boards by constraint
//! propagation over per-cell digit domains, with backtracking search.

pub mod location;
pub mod cell;
pub mod grid_iter;
pub mod grid;
pub mod propagation;
pub mod solver;
pub mod bruteforce_backtracking;
pub mod neighboring_waves_intersection;
pub mod random;
pub mod grid_serde;
pub mod display;

pub use cell::{Cell, Digit, Entropy, WaveFunction};
pub use display::{display_horizontal_box_separator, display_horizontal_normal_separator};
pub use grid::Grid;
pub use grid_iter::{
    iter_box, iter_boxes, iter_column, iter_columns, iter_row, iter_rows, iter_sector, BoxIterator,
    BoxesIterator, ColumnIterator, ColumnsIterator, RowIterator, RowsIterator, SectorIterator,
};
pub use grid_serde::ParseError;
pub use location::{Location, Vec2, CELL_COUNT, DIGIT_BASE};
pub use solver::{initialize_waves, solve_with, try_solve_with, SolvingAlgorithms};
