//! The nodes of the red-black tree and the steps that keep it balanced.

use vstd::prelude::*;
use crate::key::{Key, rank_floor, rank_ceiling};
use crate::rbtree::mend::{
    grown,
    hung_leaf,
    lemma_absent,
    lemma_blacken,
    lemma_grand,
    lemma_grown,
    lemma_hang,
    lemma_lean,
    lemma_pass_up,
    lemma_round,
    lemma_settled,
    lemma_straighten,
    lands,
    marks_leaf,
    mended,
    round,
    run,
    top_after,
};
use crate::rbtree::shape::{
    Mark,
    holds,
    joint,
    leads,
    lemma_top,
    marks_of,
    reach,
    skeleton,
    top_of,
    tree,
};
use crate::rbtree::turn::{
    flip_colors,
    flipped,
    lemma_flip,
    lemma_steps,
    lemma_turn_left,
    lemma_turn_right,
    marks_flipped,
    marks_left,
    marks_right,
    rehung,
    top_turned,
    turn_left,
    turn_right,
    turned_left,
    turned_right,
};

verus! {

/// One node of the tree. `parent`, `left` and `right` are places in the
/// vector that holds the tree; only the root has no parent.
#[derive(Debug)]
pub struct Node<T> {
    pub parent: Option<usize>,
    pub is_red: bool,
    pub key: T,
    pub left: Option<usize>,
    pub right: Option<usize>,
}

/// Whether `u` names a red node; no node is not red.
pub open spec fn red<T>(nodes: Seq<Node<T>>, u: Option<usize>) -> bool {
    u matches Some(i) && i < nodes.len() && nodes[i as int].is_red
}

impl<T: Key> Node<T> {
    /// The black node, without parent or children, of a tree with one key.
    pub fn new_root(key: T) -> (node: Node<T>)
        ensures
            node == (Node { parent: None, is_red: false, key: key, left: None, right: None }),
    {
        Node { is_red: false, key: key, parent: None, left: None, right: None }
    }

    /// Whether `key` is in the tree; `this` is a node that the search for
    /// `key` passes, such as the root.
    pub fn contains(nodes: &Vec<Node<T>>, this: usize, key: T) -> (found: bool)
        requires
            leads(nodes@, this, key),
        ensures
            found == holds(nodes@, key),
        decreases reach(nodes@, this),
    {
        let ghost marks = marks_of(nodes@);
        let ghost top = top_of(nodes@);
        proof {
            lemma_top(nodes@);
            assert(joint(nodes@, marks, top, this));
        }
        let child = if key.same(&nodes[this].key) {
            proof {
                T::rank_is_one_to_one(key, nodes@[this as int].key);
            }
            return true;
        } else if key.less(&nodes[this].key) {
            nodes[this].left
        } else {
            nodes[this].right
        };
        match child {
            None => {
                proof {
                    lemma_absent(nodes@, marks, top, this, key);
                }
                false
            },
            Some(child) => Node::contains(nodes, child, key),
        }
    }

    /// Puts `key` into the tree; `this` is a node that the search for `key`
    /// passes, such as the root. A key that is there already changes
    /// nothing. A new key becomes a red leaf, and the tree is mended from
    /// there upwards.
    pub fn insert(nodes: &mut Vec<Node<T>>, this: usize, key: T)
        requires
            leads(old(nodes)@, this, key),
        ensures
            grown(old(nodes)@, final(nodes)@, this, key),
        decreases reach(old(nodes)@, this),
    {
        let ghost before = nodes@;
        let ghost marks = marks_of(nodes@);
        let ghost top = top_of(nodes@);
        proof {
            lemma_top(before);
            assert(joint(before, marks, top, this));
        }
        let go_left = if key.same(&nodes[this].key) {
            proof {
                T::rank_is_one_to_one(key, before[this as int].key);
            }
            return ;
        } else {
            key.less(&nodes[this].key)
        };
        let child = if go_left {
            nodes[this].left
        } else {
            nodes[this].right
        };
        match child {
            None => {
                let leaf = nodes.len();
                nodes.push(Node::new_leaf(this, key));
                assert(before.len() < usize::MAX) by {
                    assert(nodes.len() == nodes@.len());
                }
                if go_left {
                    nodes[this].left = Some(leaf);
                } else {
                    nodes[this].right = Some(leaf);
                }
                proof {
                    lemma_hang(before, marks, top, this, key);
                    assert(nodes@ =~= hung_leaf(before, this, key));
                }
                fixup(nodes, leaf, Ghost(marks_leaf(before, marks, this, key)), Ghost(top));
                proof {
                    lemma_grown(before, nodes@, top, this, key);
                }
            },
            Some(child) => {
                assert(lands(before, this, key) == lands(before, child, key));
                Node::insert(nodes, child, key)
            },
        }
    }

    /// A red node without children below `parent`.
    fn new_leaf(parent: usize, key: T) -> (node: Node<T>)
        ensures
            node == (Node { parent: Some(parent), is_red: true, key: key, left: None, right: None }),
    {
        Node { is_red: true, key: key, parent: Some(parent), left: None, right: None }
    }
}

/// Whether `u` names a red node.
fn is_red<T>(nodes: &Vec<Node<T>>, u: Option<usize>) -> (r: bool)
    requires
        u matches Some(i) ==> i < nodes@.len(),
    ensures
        r == red(nodes@, u),
{
    match u {
        None => false,
        Some(i) => nodes[i].is_red,
    }
}

/// Exchanges the colors of `u` and `v`.
fn swap_colors<T>(nodes: &mut Vec<Node<T>>, u: usize, v: usize)
    requires
        u < old(nodes)@.len(),
        v < old(nodes)@.len(),
        u != v,
    ensures
        final(nodes)@ == old(nodes)@.update(
            u as int,
            Node { is_red: old(nodes)@[v as int].is_red, ..old(nodes)@[u as int] },
        ).update(v as int, Node { is_red: old(nodes)@[u as int].is_red, ..old(nodes)@[v as int] }),
{
    let cu = nodes[u].is_red;
    let cv = nodes[v].is_red;
    nodes[u].is_red = cv;
    nodes[v].is_red = cu;
}

/// Puts `heir` where `leaver` hangs: `heir` gets the parent of `leaver`, and
/// that parent, if there is one, gets `heir` as its child in place of `leaver`.
fn swap_child<T>(nodes: &mut Vec<Node<T>>, leaver: usize, heir: usize)
    requires
        leaver < old(nodes)@.len(),
        heir < old(nodes)@.len(),
        old(nodes)@[leaver as int].parent matches Some(p) ==> p < old(nodes)@.len() && p != heir,
    ensures
        final(nodes)@ == hung(old(nodes)@, leaver as int, heir as int),
{
    let parent = nodes[leaver].parent;
    nodes[heir].parent = parent;
    match parent {
        None => {},
        Some(p) => {
            if nodes[p].left == Some(leaver) {
                nodes[p].left = Some(heir);
            } else {
                nodes[p].right = Some(heir);
            }
        },
    }
}

/// The nodes after `heir` has been put where `leaver` hangs.
pub open spec fn hung<T>(nodes: Seq<Node<T>>, leaver: int, heir: int) -> Seq<Node<T>> {
    let parent = nodes[leaver].parent;
    let moved = nodes.update(heir, Node { parent: parent, ..nodes[heir] });
    match parent {
        None => moved,
        Some(p) => if moved[p as int].left == Some(leaver as usize) {
            moved.update(p as int, Node { left: Some(heir as usize), ..moved[p as int] })
        } else {
            moved.update(p as int, Node { right: Some(heir as usize), ..moved[p as int] })
        },
    }
}

/// Inverts the colors of `u` and of its two children.
fn flip<T: Key>(
    nodes: &mut Vec<Node<T>>,
    u: usize,
    Ghost(marks): Ghost<Seq<Mark>>,
    Ghost(top): Ghost<usize>,
)
    requires
        skeleton(old(nodes)@, marks, top),
        u < old(nodes)@.len(),
        !old(nodes)@[u as int].is_red,
        red(old(nodes)@, old(nodes)@[u as int].left),
        red(old(nodes)@, old(nodes)@[u as int].right),
    ensures
        final(nodes)@ == flip_colors(old(nodes)@, u),
        flipped(old(nodes)@, final(nodes)@, u),
        skeleton(final(nodes)@, marks_flipped(old(nodes)@, marks, u), top),
{
    let ghost before = nodes@;
    assert(joint(before, marks, top, u));
    let left = nodes[u].left.unwrap();
    let right = nodes[u].right.unwrap();
    assert(joint(before, marks, top, left));
    assert(joint(before, marks, top, right));
    nodes[u].is_red = !nodes[u].is_red;
    nodes[left].is_red = !nodes[left].is_red;
    nodes[right].is_red = !nodes[right].is_red;
    proof {
        lemma_flip(before, nodes@, marks, top, u);
        lemma_steps(before, nodes@, u);
    }
}

/// Turns the link from `u` to its red right child to the left.
fn flip_left<T: Key>(
    nodes: &mut Vec<Node<T>>,
    u: usize,
    Ghost(marks): Ghost<Seq<Mark>>,
    Ghost(top): Ghost<usize>,
)
    requires
        skeleton(old(nodes)@, marks, top),
        u < old(nodes)@.len(),
        red(old(nodes)@, old(nodes)@[u as int].right),
    ensures
        final(nodes)@ == turn_left(old(nodes)@, u),
        turned_left(old(nodes)@, final(nodes)@, u),
        skeleton(
            final(nodes)@,
            marks_left(old(nodes)@, marks, u),
            top_turned(top, u, old(nodes)@[u as int].right->0),
        ),
{
    let ghost before = nodes@;
    let right = nodes[u].right.unwrap();
    proof {
        assert(joint(before, marks, top, u));
        assert(joint(before, marks, top, right));
        if before[u as int].parent is Some {
            assert(joint(before, marks, top, before[u as int].parent->0));
        }
        if before[right as int].left is Some {
            assert(joint(before, marks, top, before[right as int].left->0));
        }
    }
    swap_colors(nodes, u, right);
    swap_child(nodes, u, right);
    nodes[u].parent = Some(right);
    let inner = nodes[right].left;
    nodes[u].right = inner;
    if let Some(x) = inner {
        nodes[x].parent = Some(u);
    }
    nodes[right].left = Some(u);
    proof {
        assert forall|i: usize| i < before.len() && i != u && i != right implies #[trigger] nodes@[i as int]
            == (Node {
            parent: if before[right as int].left == Some(i) {
                Some(u)
            } else {
                before[i as int].parent
            },
            left: rehung(before[i as int].left, u, right),
            right: rehung(before[i as int].right, u, right),
            ..before[i as int]
        }) by {
            assert(joint(before, marks, top, i));
        }
        lemma_turn_left(before, nodes@, marks, top, u);
        lemma_steps(before, nodes@, u);
    }
}

/// Turns the link from `u` to its red left child to the right.
fn flip_right<T: Key>(
    nodes: &mut Vec<Node<T>>,
    u: usize,
    Ghost(marks): Ghost<Seq<Mark>>,
    Ghost(top): Ghost<usize>,
)
    requires
        skeleton(old(nodes)@, marks, top),
        u < old(nodes)@.len(),
        red(old(nodes)@, old(nodes)@[u as int].left),
    ensures
        final(nodes)@ == turn_right(old(nodes)@, u),
        turned_right(old(nodes)@, final(nodes)@, u),
        skeleton(
            final(nodes)@,
            marks_right(old(nodes)@, marks, u),
            top_turned(top, u, old(nodes)@[u as int].left->0),
        ),
{
    let ghost before = nodes@;
    let left = nodes[u].left.unwrap();
    proof {
        assert(joint(before, marks, top, u));
        assert(joint(before, marks, top, left));
        if before[u as int].parent is Some {
            assert(joint(before, marks, top, before[u as int].parent->0));
        }
        if before[left as int].right is Some {
            assert(joint(before, marks, top, before[left as int].right->0));
        }
    }
    swap_colors(nodes, u, left);
    swap_child(nodes, u, left);
    nodes[u].parent = Some(left);
    let inner = nodes[left].right;
    nodes[u].left = inner;
    if let Some(x) = inner {
        nodes[x].parent = Some(u);
    }
    nodes[left].right = Some(u);
    proof {
        assert forall|i: usize| i < before.len() && i != u && i != left implies #[trigger] nodes@[i as int]
            == (Node {
            parent: if before[left as int].right == Some(i) {
                Some(u)
            } else {
                before[i as int].parent
            },
            left: rehung(before[i as int].left, u, left),
            right: rehung(before[i as int].right, u, left),
            ..before[i as int]
        }) by {
            assert(joint(before, marks, top, i));
        }
        lemma_turn_right(before, nodes@, marks, top, u);
        lemma_steps(before, nodes@, u);
    }
}

/// Restores the rules of color after the red node `u` was hung into the
/// tree or turned red: walks up from `u`, turns a red link that leans to the
/// right, turns the upper of two red links in a row, and hands the color
/// of a black node with two red children down to them, until no rule is
/// broken. A red root is made black.
fn fixup<T: Key>(
    nodes: &mut Vec<Node<T>>,
    first: usize,
    Ghost(marks): Ghost<Seq<Mark>>,
    Ghost(top): Ghost<usize>,
)
    requires
        tree(old(nodes)@, marks, top, Some(first)),
        first < old(nodes)@.len(),
        old(nodes)@[first as int].is_red,
    ensures
        mended(old(nodes)@, final(nodes)@, top, first),
{
    let mut u = first;
    let ghost mut marks = marks;
    let ghost mut done: nat = 0;
    loop
        invariant
            forall|more: nat| #[trigger]
                run(old(nodes)@, first, done + more) == run(nodes@, u, more),
            tree(nodes@, marks, top, Some(u)),
            u < nodes@.len(),
            nodes@[u as int].is_red,
            nodes@.len() == old(nodes)@.len(),
            forall|i: int| 0 <= i < nodes@.len() ==> (#[trigger] nodes@[i]).key == old(nodes)@[i].key,
        decreases rank_ceiling() - rank_floor() - (marks[u as int].hi - marks[u as int].lo),
    {
        let ghost start = nodes@;
        let ghost start_marks = marks;
        let ghost start_u = u;
        let ghost mut top_now = top;
        proof {
            assert(joint(start, marks, top, u));
        }
        let mut w = match nodes[u].parent {
            None => {
                nodes[u].is_red = false;
                proof {
                    lemma_blacken(start, nodes@, marks, top, u);
                    let marks2 = marks.update(
                        u as int,
                        Mark { black: marks[u as int].black + 1, ..marks[u as int] },
                    );
                    assert(top_after(nodes@, top) == top);
                    assert(tree(nodes@, marks2, top_after(nodes@, top), None));
                    assert(round(start, u) == (nodes@, None::<usize>));
                    assert(run(old(nodes)@, first, done + 0) == run(start, u, 0));
                    assert(run(old(nodes)@, first, done) == Some(nodes@));
                }
                return ;
            },
            Some(w) => w,
        };
        let ghost start_w = w;
        proof {
            assert(joint(start, marks, top, w));
        }
        if !is_red(nodes, nodes[w].left) {
            flip_left(nodes, w, Ghost(marks), Ghost(top));
            proof {
                lemma_lean(start, nodes@, marks, top, u, w);
                marks = marks_left(start, marks, w);
                top_now = top_turned(top, w, u);
            }
            u = w;
            w = nodes[u].parent.unwrap();
        }
        let ghost turned = nodes@;
        proof {
            assert(joint(turned, marks, top_now, u));
            assert(joint(turned, marks, top_now, w));
        }
        if !is_red(nodes, Some(w)) {
            proof {
                lemma_settled(turned, marks, top_now, u, w);
                assert(top_after(turned, top) == top_now);
                assert(tree(turned, marks, top_after(turned, top), None));
                lemma_round(start, start_u, start_w, turned, w, w);
                assert(run(old(nodes)@, first, done + 0) == run(start, start_u, 0));
                assert(run(old(nodes)@, first, done) == Some(nodes@));
            }
            return ;
        }
        proof {
            assert(top_now == top);
            lemma_grand(turned, marks, top, u, w);
        }
        let g = nodes[w].parent.unwrap();
        proof {
            assert(joint(turned, marks, top, g));
        }
        if !is_red(nodes, nodes[g].right) {
            flip_right(nodes, g, Ghost(marks), Ghost(top));
            proof {
                lemma_straighten(turned, nodes@, marks, top, u, w, g);
                let top2 = top_turned(top, g, w);
                let marks2 = marks_right(turned, marks, g);
                assert(top_after(nodes@, top) == top2);
                assert(tree(nodes@, marks2, top_after(nodes@, top), None));
                lemma_round(start, start_u, start_w, turned, w, g);
                assert(run(old(nodes)@, first, done + 0) == run(start, start_u, 0));
                assert(run(old(nodes)@, first, done) == Some(nodes@));
            }
            return ;
        }
        flip(nodes, g, Ghost(marks), Ghost(top));
        proof {
            lemma_pass_up(turned, nodes@, marks, top, u, w, g);
            marks = marks_flipped(turned, marks, g);
            assert(joint(start, start_marks, top, start_u));
            lemma_round(start, start_u, start_w, turned, w, g);
            assert forall|more: nat| #[trigger]
                run(old(nodes)@, first, done + 1 + more) == run(nodes@, g, more) by {
                assert(run(old(nodes)@, first, done + (more + 1)) == run(
                    start,
                    start_u,
                    more + 1,
                ));
            }
            done = done + 1;
        }
        u = g;
    }
}

} // verus!
