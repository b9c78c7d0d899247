//! Solvers for nine-by-nine Sudoku grids.
//!
//! [`wavefunc`] holds the constraint-propagation solver: every cell carries the
//! set of digits it may still take, fixing a cell narrows its peers, and the
//! search branches on the most constrained cell first. [`backtrack`] and
//! [`bits`] hold two simpler depth-first solvers that serve as baselines.
//!
//! [`rules`] states what a board and a solution are, and [`masks`] the
//! bit-level encoding of digit sets that the solvers share. [`parse`] reads
//! boards from text, [`text`] lays a grid out as text, and [`paint`] colours
//! text for a terminal.

pub mod backtrack;
pub mod bits;
pub mod masks;
pub mod paint;
pub mod parse;
pub mod rules;
pub mod text;
pub mod wavefunc;
