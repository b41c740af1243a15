//! Parent maps as rooted forests.
//!
//! A parent map sends every element to its parent; a root is its own parent.
//! This module says what the root of an element is, what path compression
//! and linking do to a parent map, and proves that both keep a forest a
//! forest and move roots only as they should. All of it is ghost code: the
//! executable structure states its contracts in these terms.

use crate::partition::merged;
use vstd::prelude::*;

verus! {

/// `e` is a root of `parents`: an element that is its own parent.
pub open spec fn is_root<T>(parents: Map<T, T>, e: T) -> bool {
    parents.contains_key(e) && parents[e] == e
}

/// The element reached from `e` by following `n` parent links.
pub open spec fn ancestor<T>(parents: Map<T, T>, e: T, n: nat) -> T
    decreases n,
{
    if n == 0 {
        e
    } else {
        ancestor(parents, parents[e], (n - 1) as nat)
    }
}

/// Following parent links from `e` arrives at a root after finitely many hops.
pub open spec fn reaches_root<T>(parents: Map<T, T>, e: T) -> bool {
    exists|n: nat| is_root(parents, #[trigger] ancestor(parents, e, n))
}

/// `parents` is a forest of rooted trees: the parent of every element is an
/// element, and every element reaches a root. The only cycles are the
/// self-loops at the roots.
pub open spec fn is_forest<T>(parents: Map<T, T>) -> bool {
    &&& forall|e: T| parents.contains_key(e) ==> parents.contains_key(#[trigger] parents[e])
    &&& forall|e: T| parents.contains_key(e) ==> #[trigger] reaches_root(parents, e)
}

/// The root that `e` reaches by following parent links.
///
/// It is meaningful where `reaches_root(parents, e)` holds. Which number of
/// hops is chosen does not matter: see [`lemma_root_of`].
pub open spec fn root_of<T>(parents: Map<T, T>, e: T) -> T {
    ancestor(parents, e, choose|n: nat| is_root(parents, #[trigger] ancestor(parents, e, n)))
}

/// The partition that a forest stands for: the map from each element to the
/// root of its tree. Two elements are in the same group exactly when this
/// map sends them to the same root.
pub open spec fn representatives<T>(parents: Map<T, T>) -> Map<T, T> {
    Map::new(|e: T| parents.contains_key(e), |e: T| root_of(parents, e))
}

/// The forest in which every element of `universe` is a root.
pub open spec fn singletons<T>(universe: Set<T>) -> Map<T, T> {
    Map::new(|e: T| universe.contains(e), |e: T| e)
}

/// `e` lies on the path of parent links that starts at `t`, ends included.
pub open spec fn on_path<T>(parents: Map<T, T>, t: T, e: T) -> bool {
    exists|k: nat| #[trigger] ancestor(parents, t, k) == e
}

/// `path` holds, in order, the first elements of the path that starts at `t`.
pub open spec fn starts_path<T>(parents: Map<T, T>, t: T, path: Seq<T>) -> bool {
    forall|j: int| 0 <= j < path.len() ==> #[trigger] path[j] == ancestor(parents, t, j as nat)
}

/// Full path compression from `t`: every element on the path from `t` becomes
/// a direct child of the root of `t`; all other parent links stay.
pub open spec fn compress<T>(parents: Map<T, T>, t: T) -> Map<T, T> {
    Map::new(
        |e: T| parents.contains_key(e),
        |e: T| if on_path(parents, t, e) { root_of(parents, t) } else { parents[e] },
    )
}

/// Compression from `t` as far as it has come when the first `done` elements
/// of the path have been made direct children of the root.
pub open spec fn compress_prefix<T>(parents: Map<T, T>, t: T, done: nat) -> Map<T, T> {
    Map::new(
        |e: T| parents.contains_key(e),
        |e: T|
            if exists|k: nat| k < done && #[trigger] ancestor(parents, t, k) == e {
                root_of(parents, t)
            } else {
                parents[e]
            },
    )
}

/// Linking root `a` under root `b`: `a` becomes a direct child of `b`.
/// Linking a root under itself changes nothing.
pub open spec fn link<T>(parents: Map<T, T>, a: T, b: T) -> Map<T, T> {
    if a == b {
        parents
    } else {
        parents.insert(a, b)
    }
}

/// The forest after a union of `a` and `b`: the path from `a` is compressed,
/// then the path from `b`, then the root of `a` is linked under the root of
/// `b`.
pub open spec fn unite<T>(parents: Map<T, T>, a: T, b: T) -> Map<T, T> {
    link(compress(compress(parents, a), b), root_of(parents, a), root_of(parents, b))
}

/// Following `a` links and then `b` more is following `a + b` links.
pub proof fn lemma_ancestor_add<T>(parents: Map<T, T>, e: T, a: nat, b: nat)
    ensures
        ancestor(parents, e, a + b) == ancestor(parents, ancestor(parents, e, a), b),
    decreases a,
{
    if a > 0 {
        lemma_ancestor_add(parents, parents[e], (a - 1) as nat, b);
    }
}

/// One more hop leads to the parent of where `n` hops lead.
pub proof fn lemma_ancestor_next<T>(parents: Map<T, T>, e: T, n: nat)
    ensures
        ancestor(parents, e, n + 1) == parents[ancestor(parents, e, n)],
{
    lemma_ancestor_add(parents, e, n, 1);
    let a = ancestor(parents, e, n);
    assert(ancestor(parents, a, 1) == ancestor(parents, parents[a], 0));
}

/// Every path that starts at a root stays there.
pub proof fn lemma_root_is_fixed<T>(parents: Map<T, T>, r: T, n: nat)
    requires
        is_root(parents, r),
    ensures
        ancestor(parents, r, n) == r,
    decreases n,
{
    if n > 0 {
        lemma_root_is_fixed(parents, r, (n - 1) as nat);
    }
}

/// In a forest, a path that starts at an element never leaves the elements.
pub proof fn lemma_ancestor_is_element<T>(parents: Map<T, T>, e: T, n: nat)
    requires
        is_forest(parents),
        parents.contains_key(e),
    ensures
        parents.contains_key(ancestor(parents, e, n)),
    decreases n,
{
    if n > 0 {
        lemma_ancestor_is_element(parents, parents[e], (n - 1) as nat);
    }
}

/// Whatever number of hops brings `e` to a root, that root is `root_of`.
pub proof fn lemma_root_of<T>(parents: Map<T, T>, e: T, n: nat)
    requires
        is_root(parents, ancestor(parents, e, n)),
    ensures
        root_of(parents, e) == ancestor(parents, e, n),
        is_root(parents, root_of(parents, e)),
{
    let k = choose|k: nat| is_root(parents, #[trigger] ancestor(parents, e, k));
    if k <= n {
        lemma_ancestor_add(parents, e, k, (n - k) as nat);
        lemma_root_is_fixed(parents, ancestor(parents, e, k), (n - k) as nat);
    } else {
        lemma_ancestor_add(parents, e, n, (k - n) as nat);
        lemma_root_is_fixed(parents, ancestor(parents, e, n), (k - n) as nat);
    }
}

/// In a forest the root of every element is a root, and so an element.
pub proof fn lemma_root_of_element<T>(parents: Map<T, T>, e: T)
    requires
        is_forest(parents),
        parents.contains_key(e),
    ensures
        is_root(parents, root_of(parents, e)),
{
    assert(reaches_root(parents, e));
    let n = choose|n: nat| is_root(parents, #[trigger] ancestor(parents, e, n));
    lemma_root_of(parents, e, n);
}

/// Once the path from `t` has arrived at a root after `len` hops, it visits
/// nothing new: the path is its first `len + 1` elements.
pub proof fn lemma_on_path_bounded<T>(parents: Map<T, T>, t: T, len: nat, e: T)
    requires
        is_root(parents, ancestor(parents, t, len)),
    ensures
        on_path(parents, t, e) <==> exists|k: nat|
            k <= len && #[trigger] ancestor(parents, t, k) == e,
{
    if on_path(parents, t, e) {
        let k = choose|k: nat| #[trigger] ancestor(parents, t, k) == e;
        if k > len {
            lemma_ancestor_add(parents, t, len, (k - len) as nat);
            lemma_root_is_fixed(parents, ancestor(parents, t, len), (k - len) as nat);
            assert(ancestor(parents, t, len) == e);
        }
    }
}

/// In the forest of singletons every element is its own representative.
pub proof fn lemma_singletons<T>(universe: Set<T>)
    ensures
        is_forest(singletons(universe)),
        representatives(singletons(universe)) == singletons(universe),
{
    let s = singletons(universe);
    assert forall|e: T| s.contains_key(e) implies #[trigger] reaches_root(s, e) by {
        assert(is_root(s, ancestor(s, e, 0)));
    }
    assert forall|e: T| s.contains_key(e) implies #[trigger] root_of(s, e) == e by {
        lemma_root_of(s, e, 0);
    }
    assert(representatives(s) =~= s);
}

/// Before any element is re-parented, the forest is as it was.
pub proof fn lemma_compress_prefix_start<T>(parents: Map<T, T>, t: T)
    ensures
        compress_prefix(parents, t, 0) == parents,
{
    assert(compress_prefix(parents, t, 0) =~= parents);
}

/// Re-parenting the next element of the path takes compression one step on.
pub proof fn lemma_compress_prefix_step<T>(parents: Map<T, T>, t: T, done: nat)
    requires
        is_forest(parents),
        parents.contains_key(t),
    ensures
        compress_prefix(parents, t, done).insert(ancestor(parents, t, done), root_of(parents, t))
            == compress_prefix(parents, t, done + 1),
{
    let next = ancestor(parents, t, done);
    let stepped = compress_prefix(parents, t, done).insert(next, root_of(parents, t));
    let target = compress_prefix(parents, t, done + 1);
    lemma_ancestor_is_element(parents, t, done);
    assert forall|e: T| parents.contains_key(e) implies stepped[e] == target[e] by {
        if exists|k: nat| k < done + 1 && #[trigger] ancestor(parents, t, k) == e {
            let k = choose|k: nat| k < done + 1 && #[trigger] ancestor(parents, t, k) == e;
            assert(k < done || e == next);
        }
    }
    assert(stepped =~= target);
}

/// When every element of the path before the root has been re-parented,
/// compression is complete.
pub proof fn lemma_compress_prefix_done<T>(parents: Map<T, T>, t: T, len: nat)
    requires
        is_root(parents, ancestor(parents, t, len)),
    ensures
        compress_prefix(parents, t, len) == compress(parents, t),
{
    let partial = compress_prefix(parents, t, len);
    let full = compress(parents, t);
    lemma_root_of(parents, t, len);
    assert forall|e: T| parents.contains_key(e) implies partial[e] == full[e] by {
        lemma_on_path_bounded(parents, t, len, e);
        if on_path(parents, t, e) {
            let k = choose|k: nat| k <= len && #[trigger] ancestor(parents, t, k) == e;
            assert(k < len || e == root_of(parents, t));
        }
    }
    assert(partial =~= full);
}

/// If `e` reaches its root in `n` hops before compression from `t`, it
/// reaches the same root in `m` hops after it.
proof fn lemma_compress_reaches<T>(parents: Map<T, T>, t: T, e: T, n: nat) -> (m: nat)
    requires
        is_forest(parents),
        parents.contains_key(t),
        parents.contains_key(e),
        is_root(parents, ancestor(parents, e, n)),
    ensures
        is_root(compress(parents, t), ancestor(compress(parents, t), e, m)),
        ancestor(compress(parents, t), e, m) == ancestor(parents, e, n),
    decreases n,
{
    let c = compress(parents, t);
    let r = root_of(parents, t);
    lemma_root_of_element(parents, t);
    if on_path(parents, t, e) {
        let k = choose|k: nat| #[trigger] ancestor(parents, t, k) == e;
        lemma_ancestor_add(parents, t, k, n);
        lemma_root_of(parents, t, k + n);
        assert(c[r] == r);
        assert(ancestor(c, e, 1) == ancestor(c, c[e], 0));
        1
    } else if n == 0 {
        0
    } else {
        let m = lemma_compress_reaches(parents, t, parents[e], (n - 1) as nat);
        assert(ancestor(c, e, m + 1) == ancestor(c, c[e], m));
        m + 1
    }
}

/// Compression from `t` leaves `e` with a root, and with the root it had.
proof fn lemma_compress_element<T>(parents: Map<T, T>, t: T, e: T)
    requires
        is_forest(parents),
        parents.contains_key(t),
        parents.contains_key(e),
    ensures
        reaches_root(compress(parents, t), e),
        root_of(compress(parents, t), e) == root_of(parents, e),
{
    assert(reaches_root(parents, e));
    let n = choose|n: nat| is_root(parents, #[trigger] ancestor(parents, e, n));
    let m = lemma_compress_reaches(parents, t, e, n);
    lemma_root_of(parents, e, n);
    lemma_root_of(compress(parents, t), e, m);
}

/// Compression keeps the elements, keeps the forest a forest, and keeps
/// every element's root: the partition is what it was.
pub proof fn lemma_compress<T>(parents: Map<T, T>, t: T)
    requires
        is_forest(parents),
        parents.contains_key(t),
    ensures
        compress(parents, t).dom() == parents.dom(),
        is_forest(compress(parents, t)),
        forall|e: T|
            parents.contains_key(e) ==> #[trigger] root_of(compress(parents, t), e)
                == root_of(parents, e),
        representatives(compress(parents, t)) == representatives(parents),
{
    let c = compress(parents, t);
    lemma_root_of_element(parents, t);
    assert(c.dom() =~= parents.dom());
    assert forall|e: T| parents.contains_key(e) implies #[trigger] root_of(c, e)
        == root_of(parents, e) by {
        lemma_compress_element(parents, t, e);
    }
    assert forall|e: T| c.contains_key(e) implies #[trigger] reaches_root(c, e) by {
        lemma_compress_element(parents, t, e);
    }
    assert forall|e: T| c.contains_key(e) implies c.contains_key(#[trigger] c[e]) by {
        assert(parents.contains_key(parents[e]));
    }
    assert(representatives(c) =~= representatives(parents));
}

/// The root that `e` has once root `a` is a child of another root `b`.
pub open spec fn root_after_link<T>(parents: Map<T, T>, a: T, b: T, e: T) -> T {
    if root_of(parents, e) == a {
        b
    } else {
        root_of(parents, e)
    }
}

/// If `e` reaches its root in `n` hops before root `a` is linked under
/// another root `b`, it reaches a root in `m` hops after: `b` where its root
/// was `a`, else the root it had.
proof fn lemma_link_reaches<T>(parents: Map<T, T>, a: T, b: T, e: T, n: nat) -> (m: nat)
    requires
        is_forest(parents),
        is_root(parents, a),
        is_root(parents, b),
        a != b,
        parents.contains_key(e),
        is_root(parents, ancestor(parents, e, n)),
    ensures
        is_root(parents.insert(a, b), ancestor(parents.insert(a, b), e, m)),
        ancestor(parents.insert(a, b), e, m) == root_after_link(parents, a, b, e),
    decreases n,
{
    let l = parents.insert(a, b);
    lemma_root_of(parents, e, n);
    if e == a {
        lemma_root_is_fixed(parents, a, n);
        assert(ancestor(l, e, 1) == ancestor(l, l[e], 0));
        1
    } else if is_root(parents, e) {
        lemma_root_is_fixed(parents, e, n);
        0
    } else {
        lemma_root_of(parents, parents[e], (n - 1) as nat);
        let m = lemma_link_reaches(parents, a, b, parents[e], (n - 1) as nat);
        assert(ancestor(l, e, m + 1) == ancestor(l, l[e], m));
        m + 1
    }
}

/// Linking root `a` under another root `b` leaves `e` with a root: `b` where
/// its root was `a`, else the root it had.
proof fn lemma_link_element<T>(parents: Map<T, T>, a: T, b: T, e: T)
    requires
        is_forest(parents),
        is_root(parents, a),
        is_root(parents, b),
        a != b,
        parents.contains_key(e),
    ensures
        reaches_root(parents.insert(a, b), e),
        root_of(parents.insert(a, b), e) == root_after_link(parents, a, b, e),
{
    assert(reaches_root(parents, e));
    let n = choose|n: nat| is_root(parents, #[trigger] ancestor(parents, e, n));
    let m = lemma_link_reaches(parents, a, b, e, n);
    lemma_root_of(parents.insert(a, b), e, m);
}

/// Linking root `a` under root `b` keeps the elements, keeps the forest a
/// forest, moves the elements whose root was `a` to root `b`, and leaves
/// every other root.
pub proof fn lemma_link<T>(parents: Map<T, T>, a: T, b: T)
    requires
        is_forest(parents),
        is_root(parents, a),
        is_root(parents, b),
    ensures
        link(parents, a, b).dom() == parents.dom(),
        is_forest(link(parents, a, b)),
        forall|e: T|
            parents.contains_key(e) ==> #[trigger] root_of(link(parents, a, b), e)
                == root_after_link(parents, a, b, e),
{
    let l = link(parents, a, b);
    assert(l.dom() =~= parents.dom());
    if a != b {
        assert forall|e: T| parents.contains_key(e) implies #[trigger] root_of(l, e)
            == root_after_link(parents, a, b, e) by {
            lemma_link_element(parents, a, b, e);
        }
        assert forall|e: T| l.contains_key(e) implies #[trigger] reaches_root(l, e) by {
            lemma_link_element(parents, a, b, e);
        }
        assert forall|e: T| l.contains_key(e) implies l.contains_key(#[trigger] l[e]) by {
            assert(parents.contains_key(parents[e]));
        }
    }
}

/// A union keeps the elements and keeps the forest a forest. It merges the
/// group of `a` into the group of `b` and touches no other group. On the
/// way, after both compressions, the two roots are still roots.
pub proof fn lemma_unite<T>(parents: Map<T, T>, a: T, b: T)
    requires
        is_forest(parents),
        parents.contains_key(a),
        parents.contains_key(b),
    ensures
        is_root(compress(compress(parents, a), b), root_of(parents, a)),
        is_root(compress(compress(parents, a), b), root_of(parents, b)),
        unite(parents, a, b).dom() == parents.dom(),
        is_forest(unite(parents, a, b)),
        representatives(unite(parents, a, b)) == merged(representatives(parents), a, b),
{
    let once = compress(parents, a);
    let twice = compress(once, b);
    let ra = root_of(parents, a);
    let rb = root_of(parents, b);
    lemma_compress(parents, a);
    lemma_compress(once, b);
    assert forall|e: T| parents.contains_key(e) implies #[trigger] root_of(twice, e)
        == root_of(parents, e) by {
        assert(root_of(once, e) == root_of(parents, e));
    }
    assert(root_of(twice, a) == ra);
    assert(root_of(twice, b) == rb);
    lemma_root_of_element(twice, a);
    lemma_root_of_element(twice, b);
    lemma_link(twice, ra, rb);
    assert(representatives(unite(parents, a, b)) =~= merged(representatives(parents), a, b));
}

} // verus!
