//! An in-memory cataloging engine for physical items stored in a tree of
//! containers, searchable through per-facet text embeddings, together with
//! the pure logic of an asynchronous photo-import pipeline.
//!
//! The engine (`database`) owns the container tree, the item records, the
//! embedding index and the import audit log, and keeps the tree shape and
//! referential invariants across every mutation. The pipeline modules
//! (`archive`, `imaging`, `import`) turn an uploaded file into stored items:
//! archive extraction is all-or-nothing, image resizing follows a fixed
//! long-edge scale policy, and description results are recombined in their
//! original order. Embedding vectors and image descriptions come from
//! external services; the functions here take their results as arguments
//! and are verified for every value of them.

pub mod archive;
pub mod database;
pub mod errors;
pub mod imaging;
pub mod import;
pub mod laws;
pub mod moving;
pub mod query;
pub mod strutil;
pub mod subtree;
pub mod tree;

use vstd::prelude::*;

verus! {

/// The id of the root container, created when a store is initialised and
/// never deleted or moved.
pub const ROOT_CONTAINER_ID: i64 = 1;

} // verus!
