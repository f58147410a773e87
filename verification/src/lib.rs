//! Galaxies (Tentai Show) puzzles: geometry of symmetric regions on a grid, a
//! generator that grows a partition of the grid into such regions, a
//! constraint-propagating solver and an error report that says what is wrong
//! with a candidate board.
pub mod arms;
pub mod board;
pub mod board_text;
pub mod border;
pub mod galaxy;
pub mod grid;
pub mod growth;
pub mod laws;
pub mod objective;
pub mod ordered;
pub mod position;
pub mod reach;
pub mod rectangle;
pub mod solver;
pub mod straight;
pub mod text;
pub mod thinning;
pub mod tiling;
pub mod tree;
pub mod universe;
