//! A verified pack storage engine: it reads a pack of compressed objects, resolves its deltas,
//! computes the id of every object and encodes the index that makes the pack searchable, and
//! completes thin packs with base objects the caller looks up. Around it stand the typed
//! configuration values, the configuration snapshot, the packed-refs transaction and the
//! extension choice of working-tree indices.
use vstd::prelude::*;

pub mod bundle;
pub mod bundle_state;
pub mod bytes;
pub mod config_snapshot;
pub mod config_value;
pub mod count;
pub mod delta;
pub mod delta_tree;
pub mod digest;
pub mod index_extensions;
pub mod index_file;
pub mod pack_data;
pub mod packed_refs;
pub mod stats;
pub mod thin;
pub mod traverse;

verus! {

} // verus!
