//! A 9x9 sudoku engine built around candidate-set cells: a
//! constraint-propagation solver with snapshot-based backtracking, and a
//! board facade for puzzle generation, editing with read-only givens, and
//! validity checking.

pub mod cell;
pub mod message;
pub mod model;
pub mod point;
pub mod sudoku;
pub mod sudoku_errors;
pub mod sudoku_solver;

pub use cell::Cell;
pub use cell::UncollapsedCell;
pub use message::Message;
pub use message::MessageState;
pub use model::DigitBoard;
pub use point::Point;
pub use sudoku::Sudoku;
pub use sudoku_errors::ErrorNoSolution;
pub use sudoku_solver::SudokuSolver;
