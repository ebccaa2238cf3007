//! Solutions to daily puzzles of two years, one module per day. Each day
//! turns the lines of its input into the answers of its parts.

pub mod aoc_24;
pub mod aoc_25;
pub mod pattern;
pub mod text;
pub mod utils;
