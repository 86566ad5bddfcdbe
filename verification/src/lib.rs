//! A 9x9 Sudoku library: validated grids, a complexity-ordered backtracking
//! solver with forward dependency bookkeeping, a random puzzle generator, and
//! a plain-text grid codec.

pub mod codec;
pub mod constants;
pub mod generator;
pub mod grid;
pub mod grid_utils;
pub mod model;
pub mod solver;
pub mod validation;
