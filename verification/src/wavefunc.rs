//! The constraint-propagation solver.
//!
//! A [`Sudoku`] is a grid of [`Cell`]s. A cell is fixed to a digit, still open
//! with a [`BitSet`] of the digits it may take, or invalid. Fixing a cell with
//! [`Sudoku::set`] narrows every cell that shares its row, column or block, and
//! [`Sudoku::solved`] searches for a completion, most constrained cell first.
//! Every operation returns a new value and leaves its input untouched.

pub mod cell;
pub mod domain;
pub mod grid;
pub mod laws;
pub mod search;
pub mod show;

pub use cell::{Cell, CellView};
pub use domain::BitSet;
pub use grid::{GridError, GridView, Sudoku};
