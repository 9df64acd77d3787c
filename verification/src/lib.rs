#![verifier::loop_isolation(false)]
use vstd::prelude::*;

pub mod day01a;
pub mod day01b;
pub mod day02a;
pub mod day02b;
pub mod day03b;
pub mod day04a;
pub mod day04b;
pub mod day05a;
pub mod day06a;
pub mod day07a;
pub mod day07b;
pub mod day08b;
pub mod day09a;
pub mod day09b;
pub mod day10a;
pub mod day10b;
pub mod day11a;
pub mod day11b;
pub mod day13b;
pub mod day14a;
pub mod day15a;
pub mod day17a;
pub mod day17b;
pub mod day19a;
pub mod day19b;
pub mod day22a;
pub mod day22b;
pub mod day23a;
pub mod day24b;
pub mod day25a;
pub mod decimal;
pub mod grid;
pub mod text;

verus! {

} // verus!
