//! Levels: what they are made of, and the rules by which caves are carved.

pub mod basic;
pub mod chasm;
pub mod edge;
pub mod joined;
pub mod lake;
pub mod stairs;
pub mod tile;
