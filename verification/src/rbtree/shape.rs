//! What makes a vector of nodes a sound red-black tree.
//!
//! The order of the keys and the balance of the black nodes are stated node
//! by node, over a mark for each node: the open span of ranks that the place
//! of the node leaves to its key, and the number of black nodes from there
//! down to any missing child.

use vstd::prelude::*;
use crate::key::{Key, rank_floor, rank_ceiling};
use crate::rbtree::node::{Node, red};

verus! {

/// What the invariants record of one node: its key and all keys below it lie
/// strictly between `lo` and `hi`, and every way down from it to a missing
/// child passes `black` black nodes, the missing child counted as one.
pub struct Mark {
    pub lo: int,
    pub hi: int,
    pub black: nat,
}

/// The number of black nodes on every way down from child `c`.
pub open spec fn black_of(marks: Seq<Mark>, c: Option<usize>) -> nat {
    match c {
        None => 1,
        Some(i) => marks[i as int].black,
    }
}

/// Whether the links of node `i` agree with those of its neighbors: each
/// child names `i` as its parent, and the parent of `i` names `i` as a child.
/// Only `top` has no parent.
pub open spec fn linked<T>(nodes: Seq<Node<T>>, top: usize, i: usize) -> bool {
    let n = nodes[i as int];
    &&& n.left matches Some(l) ==> l < nodes.len() && nodes[l as int].parent == Some(i)
    &&& n.right matches Some(r) ==> r < nodes.len() && nodes[r as int].parent == Some(i)
    &&& match n.parent {
        Some(p) => p < nodes.len() && (nodes[p as int].left == Some(i) || nodes[p as int].right
            == Some(i)),
        None => i == top,
    }
}

/// Whether the key of node `i` lies in the span of `i`, and the key cuts that
/// span into the spans of the two children. The span of a node without
/// parent is the whole range of ranks.
pub open spec fn placed<T: Key>(nodes: Seq<Node<T>>, marks: Seq<Mark>, i: usize) -> bool {
    let n = nodes[i as int];
    let m = marks[i as int];
    &&& rank_floor() <= m.lo < n.key.rank() < m.hi <= rank_ceiling()
    &&& n.left matches Some(l) ==> marks[l as int].lo == m.lo && marks[l as int].hi
        == n.key.rank()
    &&& n.right matches Some(r) ==> marks[r as int].lo == n.key.rank() && marks[r as int].hi
        == m.hi
    &&& n.parent is None ==> m.lo == rank_floor() && m.hi == rank_ceiling()
}

/// Whether both children of node `i` have the same count of black nodes
/// below them, and `i` has that count, plus one if it is black.
pub open spec fn level<T>(nodes: Seq<Node<T>>, marks: Seq<Mark>, i: usize) -> bool {
    let n = nodes[i as int];
    &&& black_of(marks, n.left) == black_of(marks, n.right)
    &&& marks[i as int].black == black_of(marks, n.left) + if n.is_red {
        0nat
    } else {
        1nat
    }
}

/// All that is asked of node `i` alone, colors apart.
pub open spec fn joint<T: Key>(nodes: Seq<Node<T>>, marks: Seq<Mark>, top: usize, i: usize) -> bool {
    &&& linked(nodes, top, i)
    &&& placed(nodes, marks, i)
    &&& level(nodes, marks, i)
}

/// Whether the key of `j` stays out of the parts of the span of `i` that a
/// missing child of `i` leaves empty.
pub open spec fn gap_free<T: Key>(nodes: Seq<Node<T>>, marks: Seq<Mark>, i: usize, j: usize) -> bool {
    let r = nodes[j as int].key.rank();
    &&& nodes[i as int].left is None ==> !(marks[i as int].lo < r < nodes[i as int].key.rank())
    &&& nodes[i as int].right is None ==> !(nodes[i as int].key.rank() < r < marks[i as int].hi)
}

/// Whether the span from `lo_a` to `hi_a` lies within the span from `lo_b` to
/// `hi_b`, to one side of the key `k_b` in it.
pub open spec fn span_under(lo_a: int, hi_a: int, lo_b: int, hi_b: int, k_b: int) -> bool {
    &&& lo_b <= lo_a
    &&& hi_a <= hi_b
    &&& hi_a <= k_b || k_b <= lo_a
}

/// Whether two spans with a key in each are nested, each to one side of the
/// key of the other, or apart.
pub open spec fn spans_nested(
    lo_a: int,
    hi_a: int,
    k_a: int,
    lo_b: int,
    hi_b: int,
    k_b: int,
) -> bool {
    ||| span_under(lo_a, hi_a, lo_b, hi_b, k_b)
    ||| span_under(lo_b, hi_b, lo_a, hi_a, k_a)
    ||| hi_a <= lo_b
    ||| hi_b <= lo_a
}

/// Whether the spans of `i` and `j` are nested or apart, as those of two
/// nodes of one tree are.
pub open spec fn nested<T: Key>(nodes: Seq<Node<T>>, marks: Seq<Mark>, i: usize, j: usize) -> bool {
    spans_nested(
        marks[i as int].lo,
        marks[i as int].hi,
        nodes[i as int].key.rank(),
        marks[j as int].lo,
        marks[j as int].hi,
        nodes[j as int].key.rank(),
    )
}

/// Whether the colors round node `i` obey the rules: a red node has no red
/// child, a red right child goes with a red left child, and a node without
/// parent is black. While the tree is being mended the node `spare` is let
/// off as a red child and as a red root.
pub open spec fn colored<T>(nodes: Seq<Node<T>>, spare: Option<usize>, i: usize) -> bool {
    let n = nodes[i as int];
    &&& n.is_red ==> (n.left == spare || !red(nodes, n.left)) && (n.right == spare || !red(
        nodes,
        n.right,
    ))
    &&& red(nodes, n.right) ==> red(nodes, n.left) || n.right == spare
    &&& n.parent is None ==> !n.is_red || Some(i) == spare
}

/// Whether every node is sound by itself, colors apart.
pub open spec fn all_joint<T: Key>(nodes: Seq<Node<T>>, marks: Seq<Mark>, top: usize) -> bool {
    &&& marks.len() == nodes.len()
    &&& nodes.len() <= usize::MAX
    &&& top < nodes.len()
    &&& nodes[top as int].parent is None
    &&& forall|i: usize| i < nodes.len() ==> #[trigger] joint(nodes, marks, top, i)
}

/// Whether no key lies where a child is missing.
pub open spec fn all_gap_free<T: Key>(nodes: Seq<Node<T>>, marks: Seq<Mark>) -> bool {
    forall|i: usize, j: usize|
        i < nodes.len() && j < nodes.len() ==> #[trigger] gap_free(nodes, marks, i, j)
}

/// Whether the spans of any two nodes are nested or apart.
pub open spec fn all_nested<T: Key>(nodes: Seq<Node<T>>, marks: Seq<Mark>) -> bool {
    forall|i: usize, j: usize|
        i < nodes.len() && j < nodes.len() && i != j ==> #[trigger] nested(nodes, marks, i, j)
}

/// Whether `nodes` form a search tree under `top` with balanced black nodes,
/// as `marks` witness; colors apart.
pub open spec fn skeleton<T: Key>(nodes: Seq<Node<T>>, marks: Seq<Mark>, top: usize) -> bool {
    &&& all_joint(nodes, marks, top)
    &&& all_gap_free(nodes, marks)
    &&& all_nested(nodes, marks)
}

/// Whether `nodes` form a red-black tree under `top`, but for what `spare`
/// is let off.
pub open spec fn tree<T: Key>(
    nodes: Seq<Node<T>>,
    marks: Seq<Mark>,
    top: usize,
    spare: Option<usize>,
) -> bool {
    &&& skeleton(nodes, marks, top)
    &&& forall|i: usize| i < nodes.len() ==> #[trigger] colored(nodes, spare, i)
}

/// Whether some node holds `key`.
pub open spec fn holds<T>(nodes: Seq<Node<T>>, key: T) -> bool {
    exists|i: int| 0 <= i < nodes.len() && (#[trigger] nodes[i]).key == key
}

/// Whether `nodes` form a red-black tree: a search tree in which the root is
/// black, no red node has a red child, a red right child goes with a red
/// left child, every way down to a missing child passes the same number of
/// black nodes, and parents and children name each other.
pub open spec fn wf<T: Key>(nodes: Seq<Node<T>>) -> bool {
    exists|marks: Seq<Mark>, top: usize| #[trigger] tree(nodes, marks, top, None)
}

/// The marks that witness a red-black tree.
pub open spec fn marks_of<T: Key>(nodes: Seq<Node<T>>) -> Seq<Mark> {
    (choose|marks: Seq<Mark>, top: usize| #[trigger] tree(nodes, marks, top, None)).0
}

/// The root of a red-black tree: its one node without parent.
pub open spec fn top_of<T: Key>(nodes: Seq<Node<T>>) -> usize {
    (choose|marks: Seq<Mark>, top: usize| #[trigger] tree(nodes, marks, top, None)).1
}

/// The width of the span of ranks that the place of node `this` leaves to keys.
pub open spec fn reach<T: Key>(nodes: Seq<Node<T>>, this: usize) -> int {
    marks_of(nodes)[this as int].hi - marks_of(nodes)[this as int].lo
}

/// Whether the search for `key` from the root passes the node `this`: the
/// place of `this` in the tree leaves room for the rank of `key`.
pub open spec fn leads<T: Key>(nodes: Seq<Node<T>>, this: usize, key: T) -> bool {
    &&& wf(nodes)
    &&& this < nodes.len()
    &&& marks_of(nodes)[this as int].lo < key.rank() < marks_of(nodes)[this as int].hi
}

/// A red-black tree has its marks and its root, and the root is its only
/// node without parent.
pub proof fn lemma_top<T: Key>(nodes: Seq<Node<T>>)
    requires
        wf(nodes),
    ensures
        tree(nodes, marks_of(nodes), top_of(nodes), None),
        forall|i: usize|
            i < nodes.len() && (#[trigger] nodes[i as int]).parent is None ==> i == top_of(nodes),
{
    let marks = marks_of(nodes);
    let top = top_of(nodes);
    assert forall|i: usize| i < nodes.len() && (#[trigger] nodes[i as int]).parent is None implies i
        == top by {
        assert(joint(nodes, marks, top, i));
    }
}

/// The search for any key passes the root.
pub proof fn lemma_top_leads<T: Key>(nodes: Seq<Node<T>>, key: T)
    requires
        wf(nodes),
    ensures
        leads(nodes, top_of(nodes), key),
{
    lemma_top(nodes);
    assert(joint(nodes, marks_of(nodes), top_of(nodes), top_of(nodes)));
    T::rank_is_bounded(key);
}

/// Whatever marks and root witness a red-black tree, the root is the same.
pub proof fn lemma_one_top<T: Key>(nodes: Seq<Node<T>>, marks: Seq<Mark>, top: usize)
    requires
        tree(nodes, marks, top, None),
    ensures
        wf(nodes),
        top_of(nodes) == top,
{
    lemma_top(nodes);
}

/// One black node without parent or children is a red-black tree.
pub proof fn lemma_single<T: Key>(nodes: Seq<Node<T>>)
    requires
        nodes.len() == 1,
        nodes[0] == (Node { parent: None, is_red: false, key: nodes[0].key, left: None, right: None }),
    ensures
        wf(nodes),
        top_of(nodes) == 0,
{
    let marks = seq![Mark { lo: rank_floor(), hi: rank_ceiling(), black: 2 }];
    T::rank_is_bounded(nodes[0].key);
    assert forall|i: usize| i < nodes.len() implies #[trigger] joint(nodes, marks, 0, i) by {}
    assert forall|i: usize, j: usize| i < nodes.len() && j < nodes.len() implies #[trigger] gap_free(
        nodes,
        marks,
        i,
        j,
    ) by {}
    assert forall|i: usize| i < nodes.len() implies #[trigger] colored(nodes, None, i) by {}
    assert(tree(nodes, marks, 0, None));
    lemma_one_top(nodes, marks, 0);
}

/// The rules of a red-black tree, one by one: the root has no parent and is
/// black; no red node has a red child; a red right child goes with a red
/// left child; both children of a node count the same number of black nodes
/// on every way down, and the node counts itself in if it is black; every
/// child names its parent; and the key of a node lies above the span of
/// its left child and below that of its right child.
pub proof fn lemma_rules<T: Key>(nodes: Seq<Node<T>>)
    requires
        wf(nodes),
    ensures
        top_of(nodes) < nodes.len(),
        nodes[top_of(nodes) as int].parent is None,
        !nodes[top_of(nodes) as int].is_red,
        forall|i: usize|
            i < nodes.len() && (#[trigger] nodes[i as int]).is_red ==> !red(nodes, nodes[i as int].left)
                && !red(nodes, nodes[i as int].right),
        forall|i: usize|
            i < nodes.len() && red(nodes, (#[trigger] nodes[i as int]).right) ==> red(
                nodes,
                nodes[i as int].left,
            ),
        forall|i: usize| i < nodes.len() ==> #[trigger] level(nodes, marks_of(nodes), i),
        forall|i: usize| i < nodes.len() ==> #[trigger] linked(nodes, top_of(nodes), i),
        forall|i: usize| i < nodes.len() ==> #[trigger] placed(nodes, marks_of(nodes), i),
{
    lemma_top(nodes);
    let marks = marks_of(nodes);
    let top = top_of(nodes);
    assert(colored(nodes, None, top));
    assert forall|i: usize| i < nodes.len() implies !(#[trigger] nodes[i as int]).is_red || (!red(
        nodes,
        nodes[i as int].left,
    ) && !red(nodes, nodes[i as int].right)) by {
        assert(colored(nodes, None, i));
    }
    assert forall|i: usize| i < nodes.len() && red(nodes, (#[trigger] nodes[i as int]).right) implies red(
        nodes,
        nodes[i as int].left,
    ) by {
        assert(colored(nodes, None, i));
    }
    assert forall|i: usize| i < nodes.len() implies #[trigger] level(nodes, marks, i) by {
        assert(joint(nodes, marks, top, i));
    }
    assert forall|i: usize| i < nodes.len() implies #[trigger] linked(nodes, top, i) by {
        assert(joint(nodes, marks, top, i));
    }
    assert forall|i: usize| i < nodes.len() implies #[trigger] placed(nodes, marks, i) by {
        assert(joint(nodes, marks, top, i));
    }
}

} // verus!
