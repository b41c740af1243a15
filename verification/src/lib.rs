//! A disjoint-set (union-find) structure over a fixed universe of elements,
//! with full path compression and a fixed merge direction.
//!
//! - [`disjoint`] holds the executable structure, [`UnionFind`].
//! - [`forest`] holds its model: a parent map, the root that each element
//!   reaches, and what compression and linking do to both.
//! - [`partition`] holds what the structure stands for: a map from every
//!   element to the representative of its group.
//! - [`laws`] holds what follows for every sequence of finds and unions.

pub mod disjoint;
pub mod forest;
pub mod laws;
pub mod partition;

pub use disjoint::UnionFind;
