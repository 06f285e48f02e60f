//! Perfect-maze generation by randomized depth-first carving, and a
//! backtracking solver that marks the path it finds.

pub mod generate;
pub mod grid;
pub mod solve;
pub mod walk;

pub use generate::Picker;
pub use grid::{Cell, Maze, MazeError, MazeModel};
