//! Combination engine for killer-sudoku style cages: for a group of
//! `cell_count` distinct values drawn from `1..=max_cell_value`, it reports
//! the least and greatest achievable sums and enumerates, in ascending
//! lexicographic order, every strictly increasing tuple with a given sum.

pub mod lex;
pub mod sums;
pub mod solver;
