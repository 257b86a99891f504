//! A filesystem snapshot tree with a canonical, round-trip-safe text form.
//!
//! A tree records, for each entry under a root, its path, whether it is a file
//! or a directory, and its last modification time; two snapshots of the same
//! root differ in text exactly when something under the root changed.
use vstd::prelude::*;

pub mod builder;
pub mod codec;
pub mod laws;
pub mod lemmas;
pub mod model;
pub mod resolver;
pub mod tree;

pub use tree::{FNode, FTree, SnapshotError};

verus! {

} // verus!
