//! Two tokens walk in lock-step from the top-left cell of a square grid to
//! its bottom-right cell, each moving one cell right or one cell down per
//! step. Cells with a negative value are blocked; every other cell carries a
//! value that is collected when a token stands on it. This crate computes the
//! best combined value by a sweep over the grid's anti-diagonals.
pub mod agreement;
pub mod diagonal;
pub mod grid;
pub mod pair_iter;
pub mod score;
pub mod solver;
pub mod table;
pub mod walk;
