//! A B-tree of fixed degree whose nodes keep their keys in arrays.

pub mod family;
pub mod node;
pub mod slice_util;

use vstd::prelude::*;
use crate::btree::node::Node;
use crate::btree::slice_util::{left_keys, right_keys};
use crate::int_set::IntSet;
use crate::key::Key;

verus! {

/// The degree of the tree: the largest number of keys that a node holds.
pub const B: usize = 6;

/// The number of child slots of an internal node.
pub const SLOTS: usize = B + 1;

/// An ordered set of keys, kept in a B-tree of degree `B`.
#[derive(Debug)]
pub struct BTree<T: Key + Default> {
    root: Node<T>,
}

impl<T: Key + Default> View for BTree<T> {
    type V = Set<T>;

    /// The keys in the tree: those in the root and below it.
    open spec fn view(&self) -> Set<T> {
        self.root()@
    }
}

impl<T: Key + Default> BTree<T> {
    /// The topmost node of the tree.
    pub closed spec fn root(&self) -> Node<T> {
        self.root
    }

    /// Whether the tree is sound: its root is, and with it every node.
    pub open spec fn wf(&self) -> bool {
        self.root().wf()
    }

    /// The number of levels below the root.
    pub open spec fn height(&self) -> nat {
        self.root().height()
    }

    /// A tree without keys: one empty leaf.
    pub fn new() -> (tree: BTree<T>)
        ensures
            tree.wf(),
            tree@ == Set::<T>::empty(),
            tree.height() == 0,
    {
        let tree = BTree { root: Node::empty() };
        proof {
            tree.root.lemma_invariants();
            assert(tree@ =~= Set::<T>::empty());
        }
        tree
    }

    /// The topmost node of the tree.
    pub fn root_node(&self) -> (node: &Node<T>)
        ensures
            *node == self.root(),
    {
        &self.root
    }

    /// Whether `key` is in the tree.
    pub fn contains(&self, key: T) -> (found: bool)
        requires
            self.wf(),
        ensures
            found == self@.contains(key),
    {
        self.root.contains(key)
    }

    /// Puts `key` into the tree; a key that is there already changes nothing.
    /// The tree grows by one level exactly when the root has to split.
    pub fn insert(&mut self, key: T)
        requires
            old(self).wf(),
        ensures
            final(self).wf(),
            final(self)@ == old(self)@.insert(key),
            old(self)@.contains(key) ==> *final(self) == *old(self),
            final(self).height() == old(self).height() + if old(self).root().splits_on(key) {
                1nat
            } else {
                0nat
            },
            !old(self)@.contains(key) ==> if old(self).root().splits_on(key) {
                let top = final(self).root();
                &&& top.keys().len() == 1
                &&& top.kids().len() == 2
                &&& top.kids()[0].len() == left_keys()
                &&& top.kids()[1].len() == right_keys()
                &&& old(self).root().took_in(
                    key,
                    top.kids()[0].keys().push(top.keys()[0]) + top.kids()[1].keys(),
                    top.kids()[0].kids() + top.kids()[1].kids(),
                    old(self).height(),
                )
            } else {
                old(self).root().took_in(
                    key,
                    final(self).root().keys(),
                    final(self).root().kids(),
                    old(self).height(),
                )
            },
    {
        let ghost before = self.root;
        match self.root.insert(key) {
            None => {},
            Some((median, right)) => {
                let ghost left = self.root;
                self.root.spill_root(median, right);
                assert forall|k: T| self.root.holds(k) <==> before.holds(k) || k == key by {
                    assert(self.root.holds(k) <==> left.holds(k) || k == median || right.holds(k));
                    assert(left.holds(k) || k == median || right.holds(k) <==> before.holds(k) || k
                        == key);
                }
            },
        }
        proof {
            assert forall|k: T| self@.contains(k) <==> old(self)@.insert(key).contains(k) by {
                assert(self.root.holds(k) <==> before.holds(k) || k == key);
            }
            assert(self@ =~= old(self)@.insert(key));
        }
    }
}

impl IntSet for BTree<i64> {
    open spec fn valid(&self) -> bool {
        self.wf()
    }

    open spec fn keys(&self) -> Set<i64> {
        self@
    }

    fn empty() -> (set: Self) {
        BTree::new()
    }

    fn get(&self, key: i64) -> (found: bool) {
        self.contains(key)
    }

    fn put(&mut self, key: i64) {
        self.insert(key)
    }
}

} // verus!
