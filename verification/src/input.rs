//! The input events the platform layer reports to a game.
//!
//! Only the system-level events live here; motion input carries
//! floating-point vectors and belongs to the unverified platform layer
//! around this crate.

use vstd::prelude::*;

verus! {

/// An input event addressed to the system rather than to the game.
#[derive(Debug, Clone, Copy, PartialEq, Eq, Structural)]
pub enum SystemAction {
    /// The player asked to leave.
    Quit,
}

} // verus!
