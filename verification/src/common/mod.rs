//! Building blocks shared by the puzzle solvers.

pub mod arith;
pub mod arraylike;
pub mod distinct;
pub mod grid_board;
pub mod parsing;
pub mod sorting;
pub mod text;
