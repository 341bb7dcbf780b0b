//! Core pieces of a tree-diffing engine for a version-control system:
//! content fingerprinting of blobs (for rename/copy detection), the
//! path-ordered outer join of two tree listings, and a mode classifier
//! that tells directories from other entries.

pub mod entry;
pub mod fingerprint;
pub mod hash;
pub mod merge;
pub mod order;
