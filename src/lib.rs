//! The core of a CRDT document frontend: a materialized state tree of
//! registers and objects, path resolution over it, local changes that emit
//! ops, and patches that bring it in line with the merged history.

pub mod diffable_sequence;
pub mod grapheme;
pub mod multivalue;
pub mod mutation;
pub mod new_value;
pub mod patch;
pub mod protocol;
pub mod resolved_path;
pub mod state_tree;
pub mod value;
