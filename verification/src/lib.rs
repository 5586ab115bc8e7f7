//! Logical deduction for nonogram puzzles: clues of fully known lines, the
//! cells of a partly known line that its clue forces, and the propagation of
//! forced cells over a whole board until nothing new is learned.

pub mod clue;
pub mod filling;
pub mod line;
pub mod board;
pub mod propagate;
