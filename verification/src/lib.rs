//! A versioned, copy-on-write key/value store built on generational slot
//! allocators.
//!
//! The crate has three layers, leaves first:
//!
//! * [`handle::handle_t`] — a compact, copyable, typed slot reference packing
//!   a generation tag, a node index and an in-node instance index into one
//!   16-bit integer.
//! * [`sparce_buffer::SparceBuffer`] and
//!   [`sparce_buffer_rc::SparceBufferRc`] — fixed-capacity arenas of
//!   32-slot nodes that hand out such handles; the second carries a
//!   reference count per slot so that several trie versions can share a node.
//! * [`versioned_buffer::Trie`] — a 256-way byte-indexed persistent trie over
//!   64-bit keys whose commits copy only the path from the root to each
//!   written key, so that a retained snapshot of an earlier version stays
//!   readable and unmutated.

pub mod handle;
pub mod handle_links;
pub mod input;
pub mod memory;
pub mod platform;
pub mod sparce_buffer;
pub mod sparce_buffer_rc;
pub mod state;
pub mod versioned_buffer;

pub use handle::handle_t;
pub use handle_links::LinkTable;
pub use sparce_buffer::SparceBuffer;
pub use sparce_buffer_rc::SparceBufferRc;
pub use versioned_buffer::{Commit, Trie};
