//! What a creature is up to.

use vstd::prelude::*;

verus! {

/// What a creature is doing.
pub enum AIState {
    Asleep(u32),
    Wandering,
    Hunting,
    Player,
}

/// What a creature is after.
pub enum Goal {
    Sleep,
    Wander,
}

} // verus!
