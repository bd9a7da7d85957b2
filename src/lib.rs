//! Ordering of module bundles for publication, canonical struct type tag
//! conversion, and the block context that a running transaction reads.

pub mod block;
pub mod bundle;
pub mod type_tag;
