//! Verified solvers for a collection of small daily puzzles.
//!
//! Each module holds the computational kernel of one puzzle: the solver takes
//! already-structured input (lists of numbers, coordinate sets, graphs) and
//! returns a scalar answer. Reading and parsing the raw puzzle text is left
//! to the caller.

pub mod day01;
pub mod day02;
pub mod day04;
pub mod day05;
pub mod day06;
pub mod day07;
pub mod day09;
pub mod day12;
pub mod day13;
pub mod day14;
pub mod day15;
pub mod day16;
pub mod day17;
pub mod day21;
pub mod day22;
pub mod sorting;
pub mod day10;
