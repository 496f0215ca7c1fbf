//! An in-memory namespace for a flat object store: an inode table that
//! reconciles slash-separated object keys with a hierarchical directory view,
//! the indexer that synthesizes directory chains from keys, and the
//! filesystem callback handlers that drive the table through put / list /
//! download calls on a pluggable object-store port.

pub mod adapters;
pub mod fs;
pub mod fuse;
pub mod invariants;
pub mod model;
pub mod paths;
pub mod uri;
