//! Board-state engine of a minesweeper game: a rectangular grid of squares,
//! random mine placement, adjacency numbers, and the reveal / flag transitions
//! with the cascading reveal of zero-numbered regions.
pub mod count;
pub mod board;
pub mod layout;
pub mod square;
pub mod laws;
pub mod minefield;
