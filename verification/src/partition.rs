//! Partitions as representative maps.
//!
//! A representative map sends every element to the representative of its
//! group. Two elements share a group exactly when they share a representative.

use vstd::prelude::*;

verus! {

/// `a` and `b` are in the same group.
pub open spec fn same_group<T>(reps: Map<T, T>, a: T, b: T) -> bool {
    reps[a] == reps[b]
}

/// The partition after the group of `a` has been merged into the group of `b`:
/// every element that had the representative of `a` now has the
/// representative of `b`; all others keep theirs.
pub open spec fn merged<T>(reps: Map<T, T>, a: T, b: T) -> Map<T, T> {
    Map::new(
        |e: T| reps.contains_key(e),
        |e: T| if reps[e] == reps[a] { reps[b] } else { reps[e] },
    )
}

} // verus!
