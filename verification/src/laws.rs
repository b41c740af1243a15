//! Laws of the structure.
//!
//! `UnionFind::parent` turns the forest `f` into `compress(f, t)` and returns
//! `root_of(f, t)`; `UnionFind::union` turns the partition `p` into
//! `merged(p, a, b)`. Each law below is stated over these functions, so it
//! holds of every state that the structure can be in.

use crate::forest::{
    ancestor, compress, is_forest, is_root, lemma_compress, lemma_root_is_fixed,
    lemma_root_of_element, on_path, representatives, root_of,
};
use crate::partition::{merged, same_group};
use vstd::prelude::*;

verus! {

/// Finding the same element twice, with no union in between, gives the same
/// root both times.
pub proof fn find_is_repeatable<T>(parents: Map<T, T>, e: T)
    requires
        is_forest(parents),
        parents.contains_key(e),
    ensures
        root_of(compress(parents, e), e) == root_of(parents, e),
{
    lemma_compress(parents, e);
}

/// A find from `t` changes no group: afterwards the forest is still a
/// forest, and a find of any element `e` returns what it would have
/// returned before.
pub proof fn find_keeps_every_root<T>(parents: Map<T, T>, t: T, e: T)
    requires
        is_forest(parents),
        parents.contains_key(t),
        parents.contains_key(e),
    ensures
        is_forest(compress(parents, t)),
        compress(parents, t).contains_key(e),
        root_of(compress(parents, t), e) == root_of(parents, e),
        representatives(compress(parents, t)) == representatives(parents),
{
    lemma_compress(parents, t);
}

/// After a find from `t`, every element on the path from `t` is a direct
/// child of the root, and the root is still a root.
pub proof fn find_flattens_path<T>(parents: Map<T, T>, t: T, e: T)
    requires
        is_forest(parents),
        parents.contains_key(t),
        parents.contains_key(e),
        on_path(parents, t, e),
    ensures
        compress(parents, t)[e] == root_of(parents, t),
        is_root(compress(parents, t), root_of(parents, t)),
{
    lemma_root_of_element(parents, t);
}

/// A second find of the same element, with no union in between, rewrites no
/// parent link: the path is already flat.
pub proof fn second_find_changes_nothing<T>(parents: Map<T, T>, e: T)
    requires
        is_forest(parents),
        parents.contains_key(e),
    ensures
        compress(compress(parents, e), e) == compress(parents, e),
{
    let once = compress(parents, e);
    let r = root_of(parents, e);
    lemma_compress(parents, e);
    lemma_root_of_element(parents, e);
    assert(ancestor(parents, e, 0) == e);
    assert(is_root(once, r));
    assert forall|x: T| once.contains_key(x) && on_path(once, e, x) implies once[x] == r by {
        let k = choose|k: nat| #[trigger] ancestor(once, e, k) == x;
        if k > 0 {
            lemma_root_is_fixed(once, r, (k - 1) as nat);
        }
    }
    assert(compress(once, e) =~= once);
}

/// A union of an element with itself changes no group.
pub proof fn self_union_keeps_groups<T>(reps: Map<T, T>, e: T)
    ensures
        merged(reps, e, e) == reps,
{
    assert(merged(reps, e, e) =~= reps);
}

/// After a union of `a` and `b`, the two are in the same group.
pub proof fn union_joins<T>(reps: Map<T, T>, a: T, b: T)
    requires
        reps.contains_key(a),
        reps.contains_key(b),
    ensures
        same_group(merged(reps, a, b), a, b),
{
}

/// Two elements that are in the same group stay so under every later union.
pub proof fn union_keeps_joined<T>(reps: Map<T, T>, a: T, b: T, c: T, d: T)
    requires
        reps.contains_key(a),
        reps.contains_key(b),
        same_group(reps, a, b),
    ensures
        same_group(merged(reps, c, d), a, b),
{
}

/// Being in the same group is transitive.
pub proof fn same_group_is_transitive<T>(reps: Map<T, T>, a: T, b: T, c: T)
    requires
        same_group(reps, a, b),
        same_group(reps, b, c),
    ensures
        same_group(reps, a, c),
{
}

/// A union of `a` and `b` merges their two groups and nothing else: `x` and
/// `y` are in the same group afterwards exactly when they were before, or
/// when each of them was in the group of `a` or in the group of `b`. Which
/// of the two is named first decides the representative, not the groups.
pub proof fn union_merges_exactly_two_groups<T>(reps: Map<T, T>, a: T, b: T, x: T, y: T)
    requires
        reps.contains_key(x),
        reps.contains_key(y),
    ensures
        ({
            let x_joins = same_group(reps, x, a) || same_group(reps, x, b);
            let y_joins = same_group(reps, y, a) || same_group(reps, y, b);
            same_group(merged(reps, a, b), x, y) <==> same_group(reps, x, y) || (x_joins
                && y_joins)
        }),
        same_group(merged(reps, a, b), x, y) <==> same_group(merged(reps, b, a), x, y),
{
}

/// A union of `a` and `b` leaves every other group alone: an element `e` of
/// neither group keeps its representative, and is in the same group as `x`
/// afterwards exactly when it was before.
pub proof fn union_spares_other_groups<T>(reps: Map<T, T>, a: T, b: T, e: T, x: T)
    requires
        reps.contains_key(e),
        reps.contains_key(x),
        !same_group(reps, e, a),
        !same_group(reps, e, b),
    ensures
        merged(reps, a, b)[e] == reps[e],
        same_group(merged(reps, a, b), e, x) <==> same_group(reps, e, x),
{
}

} // verus!
