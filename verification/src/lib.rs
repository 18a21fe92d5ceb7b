//! The index of a key-value store: a tree of pages.
//!
//! The operations do no input or output. Each is a value that takes turns with a page store:
//! it asks for an action, and its next step is handed the event that came of it.

use vstd::prelude::*;

pub mod bytes;
pub mod consolidate;
pub mod get;
pub mod init;
pub mod iter;
pub mod laws;
pub mod lookup;
pub mod merge;
pub mod note;
pub mod page;
pub mod perf;
pub mod reconcile;
pub mod restructure;
pub mod search;
pub mod split;
pub mod tree;
pub mod turn;
pub mod write;

verus! {

} // verus!
