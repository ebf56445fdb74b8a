//! Puzzle solvers with verified contracts.
//!
//! The core is `day10`: button machines solved exactly, over GF(2) by
//! Gaussian elimination and a search of the free variables, and over the
//! nonnegative integers by branch and bound under a deadline. Beside it
//! stand smaller puzzles (a dial, battery banks, paper rolls, ingredient
//! ranges, beam splitters, tile rectangles), the ICMP echo checksum, and the
//! byte-level text helpers that all the parsers share.

pub mod day1;
pub mod day3;
pub mod day4;
pub mod day5;
pub mod day7;
pub mod day9;
pub mod day10;
pub mod ping;
pub mod text;
