//! An owned, mutable, multi-way tree container.
//!
//! A [`tree::Node`] owns one value and an ordered list of child nodes. The
//! library offers child insertion, indexed child replacement (keeping the
//! replaced child's descendants), whole-subtree replacement, and
//! structure-preserving transforms (`map` and `flat_map`) that rebuild a
//! tree with a function applied to every value.
//!
//! Every node carries a re-entrancy guard over its child list: while one
//! in-flight operation holds the guard, further access to the same child
//! list fails fast with [`tree::TreeError::ConcurrentAccess`] instead of
//! corrupting the list.

pub mod laws;
pub mod model;
pub mod tree;
