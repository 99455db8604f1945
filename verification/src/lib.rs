//! Solvers for grid and text puzzles, built around a rectangular board engine.

pub mod common;
pub mod year_2015;
pub mod year_2024;
pub mod year_2025;
