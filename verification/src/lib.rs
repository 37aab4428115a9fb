//! Square Sudoku grids and three backtracking solvers, with the grid rules,
//! the candidate bookkeeping and the searches proved against a mathematical
//! model of the board.

pub mod sudoku;
