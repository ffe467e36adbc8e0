//! A Sudoku solver that works by constraint propagation alone: candidate sets,
//! peer-group elimination and an assignment cascade, with no search.
pub mod options;
pub mod cell;
pub mod board;
pub mod text;

pub use board::Board;
pub use cell::Cell;
pub use options::CellOptions;
