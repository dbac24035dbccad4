//! A directory-listing core with scriptable, per-file-type formatting.
//!
//! The pipeline is a pure function of a scanned entry tree, a
//! formatter registry and the listing options: the walker filters
//! hidden names and cuts the tree to a recursion budget; the sort
//! engine orders siblings by name or kind with deterministic
//! tie-breaks; the dispatch picks a formatter callback per entry; the
//! builder turns each entry into a line of styled cells; and the
//! renderer emits either an indented tree or a width-packed grid,
//! compressing runs of equally colored cells into single escape
//! sequences.
//!
//! Filesystem reading, terminal output and the scripting engine's
//! setup stay outside; the callbacks themselves are reached through a
//! small trusted layer around the embedded scripting engine.

use vstd::prelude::*;

pub mod cells;
pub mod color;
pub mod entry;
pub mod fmt;
pub mod list;
pub mod lua;
pub mod registry;
pub mod render;
pub mod sort;
pub mod text;
pub mod walk;

verus! {

} // verus!
