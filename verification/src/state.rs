//! The in-memory representation of the synchronized game state.

use vstd::prelude::*;

verus! {

/// An entity no player controls.
pub struct Npc {
}

/// The state synchronized between server and clients: a collection of
/// handles into the real memory store.
pub struct WorldState {
}

} // verus!
