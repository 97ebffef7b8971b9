//! A key-path dictionary with alias resolution and ambiguity detection.
//!
//! A value is stored under a canonical sequence of keys (its *path*) and can
//! afterwards be reached through alternate keys (*aliases*) registered per
//! path segment. Two aliases may legally collide at the same edge; the trie
//! detects the collision and reports such lookups as irreducibly ambiguous
//! rather than picking an arbitrary winner.

pub mod laws;
pub mod model;
mod trie;

pub use trie::Trie;
pub use trie::UniqueOption;
