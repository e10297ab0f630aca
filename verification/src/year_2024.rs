//! The 2024 puzzle solutions.

pub mod day01;
pub mod day02;
pub mod day03;
pub mod day04;
pub mod day05;
pub mod day08;
pub mod day09;
pub mod day12;
pub mod day14;
pub mod day18;
pub mod day13;
pub mod day15;
pub mod day17;
pub mod day19;
