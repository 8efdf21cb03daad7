//! The contract between a game and the platform layer that drives it.
//!
//! The platform loop itself — windowing, timing, rendering back ends —
//! lives outside this crate; these traits are what a game implements to be
//! driven by it.

use vstd::prelude::*;

verus! {

/// A game's whole state, created once when the platform starts.
pub trait GameState: Sized {
    fn New() -> Self;
}

/// Draws one frame from the game state.
pub trait Renderer<G: GameState> {
    fn DoRender(&mut self, state: &G);
}

/// Advances the game state once per frame.
pub trait Scene<G: GameState> {
    fn Tick(&mut self, state: &mut G);
}

/// Settings the platform loop is started with.
pub struct Params {
    pub frame_rate: u32,
}

} // verus!
