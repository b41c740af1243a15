//! The executable disjoint-set structure.

use crate::forest::{
    ancestor, compress, compress_prefix, is_forest, is_root, lemma_ancestor_is_element,
    lemma_ancestor_next, lemma_compress, lemma_compress_prefix_done, lemma_compress_prefix_start,
    lemma_compress_prefix_step, lemma_root_of, lemma_singletons, lemma_unite, reaches_root,
    representatives, root_of, singletons, starts_path, unite,
};
use crate::partition::merged;
use std::collections::HashMap;
use std::fmt::Debug;
use std::hash::Hash;
use vstd::laws_eq::obeys_concrete_eq;
use vstd::prelude::*;
use vstd::std_specs::hash::obeys_key_model;

verus! {

/// What the structure asks of its element type: hashing is deterministic,
/// and `==` on two elements holds exactly when they are the same value.
/// The primitive integer types meet both.
pub open spec fn is_element_type<T: PartialEq>() -> bool {
    obeys_key_model::<T>() && obeys_concrete_eq::<T>()
}

/// A partition of a fixed universe of elements into disjoint groups.
///
/// Each group is a tree of parent links and is known by its root. Elements
/// are never added or removed after construction. Merging always puts the
/// root of the first argument under the root of the second: there is no
/// balancing by rank or size, so trees can grow tall, and only path
/// compression keeps later look-ups short.
#[derive(Debug)]
pub struct UnionFind<T> {
    groups: HashMap<T, T>,
}

impl<T> View for UnionFind<T> {
    type V = Map<T, T>;

    /// The partition: the map from every element of the universe to the
    /// root of its group.
    open spec fn view(&self) -> Map<T, T> {
        representatives(self.forest())
    }
}

impl<T> UnionFind<T> {
    /// The parent of every element of the universe.
    pub closed spec fn forest(&self) -> Map<T, T> {
        self.groups@
    }
}

impl<T> UnionFind<T> where T: PartialEq + Eq + Hash + Copy + Debug + Clone {
    /// The parent links form a forest of rooted trees over the universe.
    pub open spec fn wf(&self) -> bool {
        is_element_type::<T>() && is_forest(self.forest())
    }

    /// Makes the structure over the universe `elements`, every element alone
    /// in its group. An element that occurs more than once counts once.
    pub fn new(elements: &[T]) -> (uf: Self)
        requires
            is_element_type::<T>(),
        ensures
            uf.wf(),
            uf.forest() == singletons(elements@.to_set()),
            uf@ == singletons(elements@.to_set()),
    {
        let mut groups: HashMap<T, T> = HashMap::new();
        for i in 0..elements.len()
            invariant
                obeys_key_model::<T>(),
                groups@ == singletons(elements@.take(i as int).to_set()),
        {
            let t = elements[i];
            groups.insert(t, t);
            proof {
                assert(elements@.take(i + 1) == elements@.take(i as int).push(t));
                elements@.take(i as int).lemma_push_to_set_commute(t);
                assert(groups@ =~= singletons(elements@.take(i + 1).to_set()));
            }
        }
        proof {
            assert(elements@.take(elements@.len() as int) == elements@);
            lemma_singletons(elements@.to_set());
        }
        UnionFind { groups }
    }

    /// Merges the group of `t1` into the group of `t2`. Both must be
    /// elements of the universe.
    ///
    /// Both paths to the roots are compressed first. Then, unless the two
    /// roots are one, the root of `t1` becomes a direct child of the root of
    /// `t2`, which stays the representative of the merged group. Elements of
    /// other groups keep their representative.
    pub fn union(&mut self, t1: T, t2: T)
        requires
            old(self).wf(),
            old(self)@.contains_key(t1),
            old(self)@.contains_key(t2),
        ensures
            final(self).wf(),
            final(self)@.dom() == old(self)@.dom(),
            final(self)@ == merged(old(self)@, t1, t2),
            final(self).forest() == unite(old(self).forest(), t1, t2),
    {
        proof {
            reveal(obeys_concrete_eq);
            lemma_compress(self.forest(), t1);
            lemma_unite(self.forest(), t1, t2);
        }
        let p1 = self.parent(t1);
        let p2 = self.parent(t2);
        if p1 != p2 {
            self.groups.insert(p1, p2);
        }
    }

    /// Finds the root of the group of `t`, which must be an element of the
    /// universe, and makes every element on the path from `t` to the root a
    /// direct child of the root.
    ///
    /// The groups stay as they were: only parent links along the path change.
    pub fn parent(&mut self, t: T) -> (root: T)
        requires
            old(self).wf(),
            old(self)@.contains_key(t),
        ensures
            final(self).wf(),
            root == old(self)@[t],
            final(self)@ == old(self)@,
            final(self).forest() == compress(old(self).forest(), t),
    {
        let ghost before = self.forest();
        assert(reaches_root(before, t));
        let ghost mut hops: nat = choose|n: nat| is_root(before, #[trigger] ancestor(before, t, n));
        let mut reparent: Vec<T> = Vec::new();
        let mut curr: T = t;
        loop
            invariant
                is_element_type::<T>(),
                is_forest(before),
                before.contains_key(t),
                before == old(self).forest(),
                self.forest() == before,
                curr == ancestor(before, t, reparent@.len()),
                starts_path(before, t, reparent@),
                is_root(before, ancestor(before, curr, hops)),
            decreases hops,
        {
            proof {
                reveal(obeys_concrete_eq);
                lemma_ancestor_is_element(before, t, reparent@.len());
            }
            let parent = self.parent_link(curr);
            if parent == curr {
                // Root found: apply path compression.
                proof {
                    lemma_root_of(before, t, reparent@.len());
                    lemma_compress_prefix_start(before, t);
                }
                for i in 0..reparent.len()
                    invariant
                        obeys_key_model::<T>(),
                        is_forest(before),
                        before.contains_key(t),
                        curr == root_of(before, t),
                        starts_path(before, t, reparent@),
                        self.forest() == compress_prefix(before, t, i as nat),
                {
                    self.groups.insert(reparent[i], curr);
                    proof {
                        lemma_compress_prefix_step(before, t, i as nat);
                    }
                }
                proof {
                    lemma_compress_prefix_done(before, t, reparent@.len());
                    lemma_compress(before, t);
                }
                return curr;
            }
            proof {
                lemma_ancestor_next(before, t, reparent@.len());
                hops = (hops - 1) as nat;
            }
            reparent.push(curr);
            curr = parent;
        }
    }

    /// The parent of the element `e`.
    fn parent_link(&self, e: T) -> (p: T)
        requires
            obeys_key_model::<T>(),
            self.forest().contains_key(e),
        ensures
            p == self.forest()[e],
    {
        match self.groups.get(&e) {
            Some(p) => *p,
            None => unreached(),
        }
    }
}

} // verus!
