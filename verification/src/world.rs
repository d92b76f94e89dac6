//! The creatures of the game and the rules that they live by.

pub mod ai;
pub mod mob;
