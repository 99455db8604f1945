//! Puzzles of the 2015 series.

pub mod day2;
pub mod day3;
pub mod day4;
pub mod day5;
pub mod day7;
