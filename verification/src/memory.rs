//! Markers for the kinds of data a client and a server exchange.

use vstd::prelude::*;

verus! {

/// A file or piece of memory the server owns and a client loads on demand.
pub struct Resource {
}

/// Something both the client and the server know about.
pub struct Handle {
}

/// A piece of data whose lifecycle the server manages dynamically: a
/// unique thing in the game world.
pub struct Entity {
}

} // verus!
