//! A left-leaning red-black tree whose nodes live in one vector and name
//! each other by their places in it.

pub mod mend;
pub mod node;
pub mod shape;
pub mod turn;

use vstd::prelude::*;
use crate::int_set::IntSet;
use crate::key::Key;
use crate::rbtree::mend::grown;
use crate::rbtree::shape::{holds, lemma_single, lemma_top, lemma_top_leads, top_of, wf};
use crate::rbtree::node::Node;

verus! {

/// An ordered set of keys, kept in a left-leaning red-black tree. The nodes
/// stand in a vector in the order in which their keys came in.
#[derive(Debug)]
pub struct RBTree<T: Key> {
    nodes: Vec<Node<T>>,
    root: Option<usize>,
}

impl<T: Key> View for RBTree<T> {
    type V = Set<T>;

    /// The keys in the tree: those that its nodes hold.
    open spec fn view(&self) -> Set<T> {
        Set::new(|key: T| holds(self.arena(), key))
    }
}

impl<T: Key> RBTree<T> {
    /// The nodes of the tree.
    pub closed spec fn arena(&self) -> Seq<Node<T>> {
        self.nodes@
    }

    /// The place of the root among the nodes; none in a tree without keys.
    pub closed spec fn top(&self) -> Option<usize> {
        self.root
    }

    /// Whether the tree is sound: it has no nodes and no root, or its nodes
    /// form a red-black tree under its root.
    pub open spec fn wf(&self) -> bool {
        match self.top() {
            None => self.arena().len() == 0,
            Some(root) => wf(self.arena()) && root == top_of(self.arena()),
        }
    }

    /// A tree without keys.
    pub fn new() -> (tree: RBTree<T>)
        ensures
            tree.wf(),
            tree@ == Set::<T>::empty(),
            tree.arena().len() == 0,
    {
        let tree = RBTree { nodes: Vec::new(), root: None };
        assert(tree@ =~= Set::<T>::empty());
        tree
    }

    /// The number of keys in the tree.
    pub fn len(&self) -> (n: usize)
        ensures
            n == self.arena().len(),
    {
        self.nodes.len()
    }

    /// The place of the root among the nodes.
    pub fn root(&self) -> (root: Option<usize>)
        ensures
            root == self.top(),
    {
        self.root
    }

    /// The nodes of the tree.
    pub fn nodes(&self) -> (nodes: &Vec<Node<T>>)
        ensures
            nodes@ == self.arena(),
    {
        &self.nodes
    }

    /// Whether `key` is in the tree.
    pub fn contains(&self, key: T) -> (found: bool)
        requires
            self.wf(),
        ensures
            found == self@.contains(key),
    {
        match self.root {
            None => false,
            Some(root) => {
                proof {
                    lemma_top_leads(self.nodes@, key);
                }
                Node::contains(&self.nodes, root, key)
            },
        }
    }

    /// Puts `key` into the tree; a key that is there already changes nothing.
    /// The first key becomes a black root. Any other new key becomes a red
    /// leaf where the search for it ends, and the tree is mended from there
    /// upwards.
    pub fn insert(&mut self, key: T)
        requires
            old(self).wf(),
        ensures
            final(self).wf(),
            final(self)@ == old(self)@.insert(key),
            old(self)@.contains(key) ==> final(self).arena() == old(self).arena(),
            old(self)@.contains(key) ==> final(self).top() == old(self).top(),
            !old(self)@.contains(key) ==> final(self).arena().len() == old(self).arena().len() + 1
                && final(self).arena()[old(self).arena().len() as int].key == key,
            forall|i: int|
                0 <= i < old(self).arena().len() ==> (#[trigger] final(self).arena()[i]).key
                    == old(self).arena()[i].key,
            match old(self).top() {
                None => final(self).top() == Some(0usize) && final(self).arena() == seq![
                    Node { parent: None, is_red: false, key: key, left: None, right: None },
                ],
                Some(root) => grown(old(self).arena(), final(self).arena(), root, key),
            },
    {
        let ghost before = self.nodes@;
        match self.root {
            None => {
                let root = self.nodes.len();
                self.nodes.push(Node::new_root(key));
                self.root = Some(root);
                proof {
                    lemma_single(self.nodes@);
                    assert(self.nodes@[0].key == key);
                    assert(self.nodes@ =~= seq![
                        Node { parent: None, is_red: false, key: key, left: None, right: None },
                    ]);
                }
            },
            Some(root) => {
                proof {
                    lemma_top_leads(self.nodes@, key);
                }
                Node::insert(&mut self.nodes, root, key);
                if let Some(parent) = self.nodes[root].parent {
                    self.root = Some(parent);
                }
                proof {
                    lemma_top(self.nodes@);
                }
            },
        }
        proof {
            assert forall|k: T| self@.contains(k) <==> old(self)@.insert(key).contains(k) by {
                assert(holds(self.nodes@, k) <==> holds(before, k) || k == key);
            }
            assert(self@ =~= old(self)@.insert(key));
        }
    }
}

impl IntSet for RBTree<i64> {
    open spec fn valid(&self) -> bool {
        self.wf()
    }

    open spec fn keys(&self) -> Set<i64> {
        self@
    }

    fn empty() -> (set: Self) {
        RBTree::new()
    }

    fn get(&self, key: i64) -> (found: bool) {
        self.contains(key)
    }

    fn put(&mut self, key: i64) {
        self.insert(key)
    }
}

} // verus!
