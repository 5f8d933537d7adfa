//! Turning a link and handing a color down: the three steps that mend the
//! tree, and why each keeps it a balanced search tree.

use vstd::prelude::*;
use crate::key::Key;
use crate::rbtree::node::{Node, red};
use crate::rbtree::shape::{
    Mark,
    all_gap_free,
    all_joint,
    all_nested,
    gap_free,
    joint,
    level,
    linked,
    nested,
    placed,
    skeleton,
    spans_nested,
};

verus! {

/// A link to a child, after `heir` has taken the place of `leaver`.
pub open spec fn rehung(c: Option<usize>, leaver: usize, heir: usize) -> Option<usize> {
    if c == Some(leaver) {
        Some(heir)
    } else {
        c
    }
}

/// The nodes after the link from `u` to its right child has been turned to
/// the left: the child takes the place and the color of `u`, and `u`
/// becomes its left child, with the color of the child and with the former
/// left subtree of the child as its own right subtree.
#[verifier::opaque]
pub open spec fn turn_left<T>(before: Seq<Node<T>>, u: usize) -> Seq<Node<T>> {
    let r = before[u as int].right->0;
    let x = before[r as int].left;
    Seq::new(
        before.len(),
        |i: int|
            if i == u {
                Node { parent: Some(r), is_red: before[r as int].is_red, right: x, ..before[i] }
            } else if i == r {
                Node {
                    parent: before[u as int].parent,
                    is_red: before[u as int].is_red,
                    left: Some(u),
                    ..before[i]
                }
            } else {
                Node {
                    parent: if x is Some && x->0 == i {
                        Some(u)
                    } else {
                        before[i].parent
                    },
                    left: rehung(before[i].left, u, r),
                    right: rehung(before[i].right, u, r),
                    ..before[i]
                }
            },
    )
}

/// Whether `after` is `turn_left(before, u)`, said node by node.
pub open spec fn turned_left<T>(before: Seq<Node<T>>, after: Seq<Node<T>>, u: usize) -> bool {
    let r = before[u as int].right->0;
    let x = before[r as int].left;
    &&& after.len() == before.len()
    &&& forall|i: int| 0 <= i < before.len() ==> (#[trigger] after[i]).key == before[i].key
    &&& after[u as int] == Node {
        parent: Some(r),
        is_red: before[r as int].is_red,
        right: x,
        ..before[u as int]
    }
    &&& after[r as int] == Node {
        parent: before[u as int].parent,
        is_red: before[u as int].is_red,
        left: Some(u),
        ..before[r as int]
    }
    &&& forall|i: usize|
        i < before.len() && i != u && i != r ==> #[trigger] after[i as int] == Node {
            parent: if x == Some(i) {
                Some(u)
            } else {
                before[i as int].parent
            },
            left: rehung(before[i as int].left, u, r),
            right: rehung(before[i as int].right, u, r),
            ..before[i as int]
        }
}

/// The marks that go with `turned_left`.
pub open spec fn marks_left<T: Key>(nodes: Seq<Node<T>>, marks: Seq<Mark>, u: usize) -> Seq<Mark> {
    let r = nodes[u as int].right->0;
    marks.update(
        u as int,
        Mark {
            lo: marks[u as int].lo,
            hi: nodes[r as int].key.rank(),
            black: marks[r as int].black,
        },
    ).update(r as int, marks[u as int])
}

/// The node without parent after the link from `u` to its child `r` has been turned.
pub open spec fn top_turned(top: usize, u: usize, r: usize) -> usize {
    if top == u {
        r
    } else {
        top
    }
}

/// What turning the link between a node and its right child does to how
/// their spans lie to the span of a third node.
proof fn lemma_turn_spans(
    lo_u: int,
    hi_u: int,
    k_u: int,
    k_r: int,
    lo_j: int,
    hi_j: int,
    k_j: int,
)
    requires
        lo_u < k_u < k_r < hi_u,
        lo_j < k_j < hi_j,
        spans_nested(lo_u, hi_u, k_u, lo_j, hi_j, k_j),
        spans_nested(k_u, hi_u, k_r, lo_j, hi_j, k_j),
    ensures
        spans_nested(lo_u, k_r, k_u, lo_j, hi_j, k_j),
        spans_nested(lo_u, hi_u, k_r, lo_j, hi_j, k_j),
        spans_nested(lo_j, hi_j, k_j, lo_u, k_r, k_u),
        spans_nested(lo_j, hi_j, k_j, lo_u, hi_u, k_r),
{
}

/// After a turn to the left parents and children still name each other.
proof fn lemma_turn_left_linked<T: Key>(
    nodes: Seq<Node<T>>,
    nodes2: Seq<Node<T>>,
    marks: Seq<Mark>,
    top: usize,
    u: usize,
)
    requires
        all_joint(nodes, marks, top),
        u < nodes.len(),
        red(nodes, nodes[u as int].right),
        turned_left(nodes, nodes2, u),
    ensures
        forall|i: usize|
            i < nodes2.len() ==> #[trigger] linked(
                nodes2,
                top_turned(top, u, nodes[u as int].right->0),
                i,
            ),
{
    let r = nodes[u as int].right->0;
    let p = nodes[u as int].parent;
    let x = nodes[r as int].left;
    let top2 = top_turned(top, u, r);
    assert(joint(nodes, marks, top, u));
    assert(joint(nodes, marks, top, r));
    if p is Some {
        assert(joint(nodes, marks, top, p->0));
    }
    if x is Some {
        assert(joint(nodes, marks, top, x->0));
    }
    assert forall|i: usize| i < nodes2.len() implies #[trigger] linked(nodes2, top2, i) by {
        assert(joint(nodes, marks, top, i));
        let n = nodes[i as int];
        if n.left is Some {
            assert(joint(nodes, marks, top, n.left->0));
        }
        if n.right is Some {
            assert(joint(nodes, marks, top, n.right->0));
        }
        if n.parent is Some {
            assert(joint(nodes, marks, top, n.parent->0));
        }
    }
}

/// After a turn to the left every key still lies in its span.
proof fn lemma_turn_left_placed<T: Key>(
    nodes: Seq<Node<T>>,
    nodes2: Seq<Node<T>>,
    marks: Seq<Mark>,
    top: usize,
    u: usize,
)
    requires
        all_joint(nodes, marks, top),
        u < nodes.len(),
        red(nodes, nodes[u as int].right),
        turned_left(nodes, nodes2, u),
    ensures
        forall|i: usize|
            i < nodes2.len() ==> #[trigger] placed(nodes2, marks_left(nodes, marks, u), i),
{
    let r = nodes[u as int].right->0;
    let p = nodes[u as int].parent;
    let x = nodes[r as int].left;
    let marks2 = marks_left(nodes, marks, u);
    assert(joint(nodes, marks, top, u));
    assert(joint(nodes, marks, top, r));
    if p is Some {
        assert(joint(nodes, marks, top, p->0));
    }
    if x is Some {
        assert(joint(nodes, marks, top, x->0));
    }
    assert forall|i: usize| i < nodes2.len() implies #[trigger] placed(nodes2, marks2, i) by {
        assert(joint(nodes, marks, top, i));
        let n = nodes[i as int];
        if n.left is Some {
            assert(joint(nodes, marks, top, n.left->0));
        }
        if n.right is Some {
            assert(joint(nodes, marks, top, n.right->0));
        }
    }
}

/// After a turn to the left the counts of black nodes still agree.
proof fn lemma_turn_left_level<T: Key>(
    nodes: Seq<Node<T>>,
    nodes2: Seq<Node<T>>,
    marks: Seq<Mark>,
    top: usize,
    u: usize,
)
    requires
        all_joint(nodes, marks, top),
        u < nodes.len(),
        red(nodes, nodes[u as int].right),
        turned_left(nodes, nodes2, u),
    ensures
        forall|i: usize|
            i < nodes2.len() ==> #[trigger] level(nodes2, marks_left(nodes, marks, u), i),
{
    let r = nodes[u as int].right->0;
    let p = nodes[u as int].parent;
    let x = nodes[r as int].left;
    let marks2 = marks_left(nodes, marks, u);
    assert(joint(nodes, marks, top, u));
    assert(joint(nodes, marks, top, r));
    if p is Some {
        assert(joint(nodes, marks, top, p->0));
    }
    if x is Some {
        assert(joint(nodes, marks, top, x->0));
    }
    assert forall|i: usize| i < nodes2.len() implies #[trigger] level(nodes2, marks2, i) by {
        assert(joint(nodes, marks, top, i));
        let n = nodes[i as int];
        if n.left is Some {
            assert(joint(nodes, marks, top, n.left->0));
        }
        if n.right is Some {
            assert(joint(nodes, marks, top, n.right->0));
        }
    }
}

/// After a turn to the left still no key lies where a child is missing.
proof fn lemma_turn_left_gaps<T: Key>(
    nodes: Seq<Node<T>>,
    nodes2: Seq<Node<T>>,
    marks: Seq<Mark>,
    top: usize,
    u: usize,
)
    requires
        all_joint(nodes, marks, top),
        all_gap_free(nodes, marks),
        u < nodes.len(),
        red(nodes, nodes[u as int].right),
        turned_left(nodes, nodes2, u),
    ensures
        all_gap_free(nodes2, marks_left(nodes, marks, u)),
{
    let r = nodes[u as int].right->0;
    let marks2 = marks_left(nodes, marks, u);
    assert(joint(nodes, marks, top, u));
    assert(joint(nodes, marks, top, r));
    assert forall|i: usize, j: usize|
        i < nodes2.len() && j < nodes2.len() implies #[trigger] gap_free(nodes2, marks2, i, j) by {
        assert(gap_free(nodes, marks, i, j));
        assert(gap_free(nodes, marks, r, j));
        assert(gap_free(nodes, marks, u, j));
    }
}

/// After a turn to the left the spans are still nested or apart.
proof fn lemma_turn_left_nested<T: Key>(
    nodes: Seq<Node<T>>,
    nodes2: Seq<Node<T>>,
    marks: Seq<Mark>,
    top: usize,
    u: usize,
)
    requires
        all_joint(nodes, marks, top),
        all_nested(nodes, marks),
        u < nodes.len(),
        red(nodes, nodes[u as int].right),
        turned_left(nodes, nodes2, u),
    ensures
        all_nested(nodes2, marks_left(nodes, marks, u)),
{
    let r = nodes[u as int].right->0;
    let marks2 = marks_left(nodes, marks, u);
    assert(joint(nodes, marks, top, u));
    assert(joint(nodes, marks, top, r));
    let (lo_u, hi_u) = (marks[u as int].lo, marks[u as int].hi);
    let (k_u, k_r) = (nodes[u as int].key.rank(), nodes[r as int].key.rank());
    assert forall|i: usize, j: usize|
        i < nodes2.len() && j < nodes2.len() && i != j implies #[trigger] nested(
        nodes2,
        marks2,
        i,
        j,
    ) by {
        assert(joint(nodes, marks, top, i));
        assert(joint(nodes, marks, top, j));
        if (i == u || i == r) && (j == u || j == r) {
        } else if i == u || i == r {
            assert(nested(nodes, marks, u, j));
            assert(nested(nodes, marks, r, j));
            lemma_turn_spans(
                lo_u,
                hi_u,
                k_u,
                k_r,
                marks[j as int].lo,
                marks[j as int].hi,
                nodes[j as int].key.rank(),
            );
        } else if j == u || j == r {
            assert(nested(nodes, marks, u, i));
            assert(nested(nodes, marks, r, i));
            lemma_turn_spans(
                lo_u,
                hi_u,
                k_u,
                k_r,
                marks[i as int].lo,
                marks[i as int].hi,
                nodes[i as int].key.rank(),
            );
        } else {
            assert(nested(nodes, marks, i, j));
        }
    }
}

/// Turning a red link to the left keeps the skeleton of the tree.
pub(crate) proof fn lemma_turn_left<T: Key>(
    nodes: Seq<Node<T>>,
    nodes2: Seq<Node<T>>,
    marks: Seq<Mark>,
    top: usize,
    u: usize,
)
    requires
        skeleton(nodes, marks, top),
        u < nodes.len(),
        red(nodes, nodes[u as int].right),
        turned_left(nodes, nodes2, u),
    ensures
        skeleton(nodes2, marks_left(nodes, marks, u), top_turned(top, u, nodes[u as int].right->0)),
{
    let r = nodes[u as int].right->0;
    assert(joint(nodes, marks, top, u));
    assert(joint(nodes, marks, top, r));
    lemma_turn_left_linked(nodes, nodes2, marks, top, u);
    lemma_turn_left_placed(nodes, nodes2, marks, top, u);
    lemma_turn_left_level(nodes, nodes2, marks, top, u);
    lemma_turn_left_gaps(nodes, nodes2, marks, top, u);
    lemma_turn_left_nested(nodes, nodes2, marks, top, u);
}

/// The nodes after the link from `u` to its left child has been turned to
/// the right: the child takes the place and the color of `u`, and `u`
/// becomes its right child, with the color of the child and with the former
/// right subtree of the child as its own left subtree.
#[verifier::opaque]
pub open spec fn turn_right<T>(before: Seq<Node<T>>, u: usize) -> Seq<Node<T>> {
    let l = before[u as int].left->0;
    let x = before[l as int].right;
    Seq::new(
        before.len(),
        |i: int|
            if i == u {
                Node { parent: Some(l), is_red: before[l as int].is_red, left: x, ..before[i] }
            } else if i == l {
                Node {
                    parent: before[u as int].parent,
                    is_red: before[u as int].is_red,
                    right: Some(u),
                    ..before[i]
                }
            } else {
                Node {
                    parent: if x is Some && x->0 == i {
                        Some(u)
                    } else {
                        before[i].parent
                    },
                    left: rehung(before[i].left, u, l),
                    right: rehung(before[i].right, u, l),
                    ..before[i]
                }
            },
    )
}

/// Whether `after` is `turn_right(before, u)`, said node by node.
pub open spec fn turned_right<T>(before: Seq<Node<T>>, after: Seq<Node<T>>, u: usize) -> bool {
    let l = before[u as int].left->0;
    let x = before[l as int].right;
    &&& after.len() == before.len()
    &&& forall|i: int| 0 <= i < before.len() ==> (#[trigger] after[i]).key == before[i].key
    &&& after[u as int] == Node {
        parent: Some(l),
        is_red: before[l as int].is_red,
        left: x,
        ..before[u as int]
    }
    &&& after[l as int] == Node {
        parent: before[u as int].parent,
        is_red: before[u as int].is_red,
        right: Some(u),
        ..before[l as int]
    }
    &&& forall|i: usize|
        i < before.len() && i != u && i != l ==> #[trigger] after[i as int] == Node {
            parent: if x == Some(i) {
                Some(u)
            } else {
                before[i as int].parent
            },
            right: rehung(before[i as int].right, u, l),
            left: rehung(before[i as int].left, u, l),
            ..before[i as int]
        }
}

/// The marks that go with `turned_right`.
pub open spec fn marks_right<T: Key>(nodes: Seq<Node<T>>, marks: Seq<Mark>, u: usize) -> Seq<Mark> {
    let l = nodes[u as int].left->0;
    marks.update(
        u as int,
        Mark {
            lo: nodes[l as int].key.rank(),
            hi: marks[u as int].hi,
            black: marks[l as int].black,
        },
    ).update(l as int, marks[u as int])
}

/// What turning the link between a node and its left child does to how
/// their spans lie to the span of a third node.
proof fn lemma_turn_spans_right(
    lo_u: int,
    hi_u: int,
    k_u: int,
    k_l: int,
    lo_j: int,
    hi_j: int,
    k_j: int,
)
    requires
        lo_u < k_l < k_u < hi_u,
        lo_j < k_j < hi_j,
        spans_nested(lo_u, hi_u, k_u, lo_j, hi_j, k_j),
        spans_nested(lo_u, k_u, k_l, lo_j, hi_j, k_j),
    ensures
        spans_nested(k_l, hi_u, k_u, lo_j, hi_j, k_j),
        spans_nested(lo_u, hi_u, k_l, lo_j, hi_j, k_j),
        spans_nested(lo_j, hi_j, k_j, k_l, hi_u, k_u),
        spans_nested(lo_j, hi_j, k_j, lo_u, hi_u, k_l),
{
}

/// After a turn to the right parents and children still name each other.
proof fn lemma_turn_right_linked<T: Key>(
    nodes: Seq<Node<T>>,
    nodes2: Seq<Node<T>>,
    marks: Seq<Mark>,
    top: usize,
    u: usize,
)
    requires
        all_joint(nodes, marks, top),
        u < nodes.len(),
        red(nodes, nodes[u as int].left),
        turned_right(nodes, nodes2, u),
    ensures
        forall|i: usize|
            i < nodes2.len() ==> #[trigger] linked(
                nodes2,
                top_turned(top, u, nodes[u as int].left->0),
                i,
            ),
{
    let l = nodes[u as int].left->0;
    let p = nodes[u as int].parent;
    let x = nodes[l as int].right;
    let top2 = top_turned(top, u, l);
    assert(joint(nodes, marks, top, u));
    assert(joint(nodes, marks, top, l));
    if p is Some {
        assert(joint(nodes, marks, top, p->0));
    }
    if x is Some {
        assert(joint(nodes, marks, top, x->0));
    }
    assert forall|i: usize| i < nodes2.len() implies #[trigger] linked(nodes2, top2, i) by {
        assert(joint(nodes, marks, top, i));
        let n = nodes[i as int];
        if n.right is Some {
            assert(joint(nodes, marks, top, n.right->0));
        }
        if n.left is Some {
            assert(joint(nodes, marks, top, n.left->0));
        }
        if n.parent is Some {
            assert(joint(nodes, marks, top, n.parent->0));
        }
    }
}

/// After a turn to the right every key still lies in its span.
proof fn lemma_turn_right_placed<T: Key>(
    nodes: Seq<Node<T>>,
    nodes2: Seq<Node<T>>,
    marks: Seq<Mark>,
    top: usize,
    u: usize,
)
    requires
        all_joint(nodes, marks, top),
        u < nodes.len(),
        red(nodes, nodes[u as int].left),
        turned_right(nodes, nodes2, u),
    ensures
        forall|i: usize|
            i < nodes2.len() ==> #[trigger] placed(nodes2, marks_right(nodes, marks, u), i),
{
    let l = nodes[u as int].left->0;
    let p = nodes[u as int].parent;
    let x = nodes[l as int].right;
    let marks2 = marks_right(nodes, marks, u);
    assert(joint(nodes, marks, top, u));
    assert(joint(nodes, marks, top, l));
    if p is Some {
        assert(joint(nodes, marks, top, p->0));
    }
    if x is Some {
        assert(joint(nodes, marks, top, x->0));
    }
    assert forall|i: usize| i < nodes2.len() implies #[trigger] placed(nodes2, marks2, i) by {
        assert(joint(nodes, marks, top, i));
        let n = nodes[i as int];
        if n.right is Some {
            assert(joint(nodes, marks, top, n.right->0));
        }
        if n.left is Some {
            assert(joint(nodes, marks, top, n.left->0));
        }
    }
}

/// After a turn to the right the counts of black nodes still agree.
proof fn lemma_turn_right_level<T: Key>(
    nodes: Seq<Node<T>>,
    nodes2: Seq<Node<T>>,
    marks: Seq<Mark>,
    top: usize,
    u: usize,
)
    requires
        all_joint(nodes, marks, top),
        u < nodes.len(),
        red(nodes, nodes[u as int].left),
        turned_right(nodes, nodes2, u),
    ensures
        forall|i: usize|
            i < nodes2.len() ==> #[trigger] level(nodes2, marks_right(nodes, marks, u), i),
{
    let l = nodes[u as int].left->0;
    let p = nodes[u as int].parent;
    let x = nodes[l as int].right;
    let marks2 = marks_right(nodes, marks, u);
    assert(joint(nodes, marks, top, u));
    assert(joint(nodes, marks, top, l));
    if p is Some {
        assert(joint(nodes, marks, top, p->0));
    }
    if x is Some {
        assert(joint(nodes, marks, top, x->0));
    }
    assert forall|i: usize| i < nodes2.len() implies #[trigger] level(nodes2, marks2, i) by {
        assert(joint(nodes, marks, top, i));
        let n = nodes[i as int];
        if n.right is Some {
            assert(joint(nodes, marks, top, n.right->0));
        }
        if n.left is Some {
            assert(joint(nodes, marks, top, n.left->0));
        }
    }
}

/// After a turn to the right still no key lies where a child is missing.
proof fn lemma_turn_right_gaps<T: Key>(
    nodes: Seq<Node<T>>,
    nodes2: Seq<Node<T>>,
    marks: Seq<Mark>,
    top: usize,
    u: usize,
)
    requires
        all_joint(nodes, marks, top),
        all_gap_free(nodes, marks),
        u < nodes.len(),
        red(nodes, nodes[u as int].left),
        turned_right(nodes, nodes2, u),
    ensures
        all_gap_free(nodes2, marks_right(nodes, marks, u)),
{
    let l = nodes[u as int].left->0;
    let marks2 = marks_right(nodes, marks, u);
    assert(joint(nodes, marks, top, u));
    assert(joint(nodes, marks, top, l));
    assert forall|i: usize, j: usize|
        i < nodes2.len() && j < nodes2.len() implies #[trigger] gap_free(nodes2, marks2, i, j) by {
        assert(gap_free(nodes, marks, i, j));
        assert(gap_free(nodes, marks, l, j));
        assert(gap_free(nodes, marks, u, j));
    }
}

/// After a turn to the right the spans are still nested or apart.
proof fn lemma_turn_right_nested<T: Key>(
    nodes: Seq<Node<T>>,
    nodes2: Seq<Node<T>>,
    marks: Seq<Mark>,
    top: usize,
    u: usize,
)
    requires
        all_joint(nodes, marks, top),
        all_nested(nodes, marks),
        u < nodes.len(),
        red(nodes, nodes[u as int].left),
        turned_right(nodes, nodes2, u),
    ensures
        all_nested(nodes2, marks_right(nodes, marks, u)),
{
    let l = nodes[u as int].left->0;
    let marks2 = marks_right(nodes, marks, u);
    assert(joint(nodes, marks, top, u));
    assert(joint(nodes, marks, top, l));
    let (lo_u, hi_u) = (marks[u as int].lo, marks[u as int].hi);
    let (k_u, k_l) = (nodes[u as int].key.rank(), nodes[l as int].key.rank());
    assert forall|i: usize, j: usize|
        i < nodes2.len() && j < nodes2.len() && i != j implies #[trigger] nested(
        nodes2,
        marks2,
        i,
        j,
    ) by {
        assert(joint(nodes, marks, top, i));
        assert(joint(nodes, marks, top, j));
        if (i == u || i == l) && (j == u || j == l) {
        } else if i == u || i == l {
            assert(nested(nodes, marks, u, j));
            assert(nested(nodes, marks, l, j));
            lemma_turn_spans_right(
                lo_u,
                hi_u,
                k_u,
                k_l,
                marks[j as int].lo,
                marks[j as int].hi,
                nodes[j as int].key.rank(),
            );
        } else if j == u || j == l {
            assert(nested(nodes, marks, u, i));
            assert(nested(nodes, marks, l, i));
            lemma_turn_spans_right(
                lo_u,
                hi_u,
                k_u,
                k_l,
                marks[i as int].lo,
                marks[i as int].hi,
                nodes[i as int].key.rank(),
            );
        } else {
            assert(nested(nodes, marks, i, j));
        }
    }
}

/// Turning a red link to the right keeps the skeleton of the tree.
pub(crate) proof fn lemma_turn_right<T: Key>(
    nodes: Seq<Node<T>>,
    nodes2: Seq<Node<T>>,
    marks: Seq<Mark>,
    top: usize,
    u: usize,
)
    requires
        skeleton(nodes, marks, top),
        u < nodes.len(),
        red(nodes, nodes[u as int].left),
        turned_right(nodes, nodes2, u),
    ensures
        skeleton(nodes2, marks_right(nodes, marks, u), top_turned(top, u, nodes[u as int].left->0)),
{
    let l = nodes[u as int].left->0;
    assert(joint(nodes, marks, top, u));
    assert(joint(nodes, marks, top, l));
    lemma_turn_right_linked(nodes, nodes2, marks, top, u);
    lemma_turn_right_placed(nodes, nodes2, marks, top, u);
    lemma_turn_right_level(nodes, nodes2, marks, top, u);
    lemma_turn_right_gaps(nodes, nodes2, marks, top, u);
    lemma_turn_right_nested(nodes, nodes2, marks, top, u);
}

/// The nodes after the colors of `g` and of its two children have been
/// inverted.
#[verifier::opaque]
pub open spec fn flip_colors<T>(before: Seq<Node<T>>, g: usize) -> Seq<Node<T>> {
    let l = before[g as int].left->0;
    let r = before[g as int].right->0;
    Seq::new(
        before.len(),
        |i: int|
            Node {
                is_red: if i == g || i == l || i == r {
                    !before[i].is_red
                } else {
                    before[i].is_red
                },
                ..before[i]
            },
    )
}

/// Whether `after` is `flip_colors(before, g)`, said node by node.
pub open spec fn flipped<T>(before: Seq<Node<T>>, after: Seq<Node<T>>, g: usize) -> bool {
    let l = before[g as int].left->0;
    let r = before[g as int].right->0;
    &&& after.len() == before.len()
    &&& forall|i: int| 0 <= i < before.len() ==> (#[trigger] after[i]).key == before[i].key
    &&& forall|i: usize|
        i < before.len() ==> #[trigger] after[i as int] == Node {
            is_red: if i == g || i == l || i == r {
                !before[i as int].is_red
            } else {
                before[i as int].is_red
            },
            ..before[i as int]
        }
}

/// The marks that go with `flipped`, where a black node hands its color
/// down to two red children: each child counts one black node more.
pub open spec fn marks_flipped<T>(nodes: Seq<Node<T>>, marks: Seq<Mark>, g: usize) -> Seq<Mark> {
    let l = nodes[g as int].left->0;
    let r = nodes[g as int].right->0;
    marks.update(l as int, Mark { black: marks[l as int].black + 1, ..marks[l as int] }).update(
        r as int,
        Mark { black: marks[r as int].black + 1, ..marks[r as int] },
    )
}

/// A black node that hands its color down to two red children keeps the
/// skeleton of the tree.
pub(crate) proof fn lemma_flip<T: Key>(
    nodes: Seq<Node<T>>,
    nodes2: Seq<Node<T>>,
    marks: Seq<Mark>,
    top: usize,
    g: usize,
)
    requires
        skeleton(nodes, marks, top),
        g < nodes.len(),
        !nodes[g as int].is_red,
        red(nodes, nodes[g as int].left),
        red(nodes, nodes[g as int].right),
        flipped(nodes, nodes2, g),
    ensures
        skeleton(nodes2, marks_flipped(nodes, marks, g), top),
{
    let l = nodes[g as int].left->0;
    let r = nodes[g as int].right->0;
    let marks2 = marks_flipped(nodes, marks, g);
    assert(joint(nodes, marks, top, g));
    assert(joint(nodes, marks, top, l));
    assert(joint(nodes, marks, top, r));
    assert forall|i: usize| i < nodes2.len() implies #[trigger] joint(nodes2, marks2, top, i) by {
        assert(joint(nodes, marks, top, i));
        let n = nodes[i as int];
        if n.left is Some {
            assert(joint(nodes, marks, top, n.left->0));
        }
        if n.right is Some {
            assert(joint(nodes, marks, top, n.right->0));
        }
        if n.parent is Some {
            assert(joint(nodes, marks, top, n.parent->0));
        }
        assert(linked(nodes2, top, i));
        assert(placed(nodes2, marks2, i));
        assert(level(nodes2, marks2, i));
    }
    assert forall|i: usize, j: usize|
        i < nodes2.len() && j < nodes2.len() implies #[trigger] gap_free(nodes2, marks2, i, j) by {
        assert(gap_free(nodes, marks, i, j));
    }
    assert forall|i: usize, j: usize|
        i < nodes2.len() && j < nodes2.len() && i != j implies #[trigger] nested(
        nodes2,
        marks2,
        i,
        j,
    ) by {
        assert(nested(nodes, marks, i, j));
    }
}

/// What is said node by node of a turn to the left, of a turn to the right
/// and of inverted colors holds of the nodes that these steps give, and of
/// no others.
pub(crate) proof fn lemma_steps<T>(before: Seq<Node<T>>, after: Seq<Node<T>>, u: usize)
    requires
        before.len() <= usize::MAX,
        u < before.len(),
    ensures
        before[u as int].right is Some && before[u as int].right->0 < before.len()
            && before[u as int].right->0 != u ==> (turned_left(before, after, u) <==> after
            == turn_left(before, u)),
        before[u as int].left is Some && before[u as int].left->0 < before.len()
            && before[u as int].left->0 != u ==> (turned_right(before, after, u) <==> after
            == turn_right(before, u)),
        flipped(before, after, u) <==> after == flip_colors(before, u),
{
    reveal(turn_left);
    reveal(turn_right);
    reveal(flip_colors);
    if turned_left(before, after, u) {
        assert forall|i: int| 0 <= i < before.len() implies after[i] == turn_left(before, u)[i] by {
            let j = i as usize;
            assert(after[j as int] == after[i]);
        }
        assert(after =~= turn_left(before, u));
    }
    if turned_right(before, after, u) {
        assert forall|i: int| 0 <= i < before.len() implies after[i] == turn_right(before, u)[i] by {
            let j = i as usize;
            assert(after[j as int] == after[i]);
        }
        assert(after =~= turn_right(before, u));
    }
    if flipped(before, after, u) {
        assert forall|i: int| 0 <= i < before.len() implies after[i] == flip_colors(before, u)[i] by {
            let j = i as usize;
            assert(after[j as int] == after[i]);
        }
        assert(after =~= flip_colors(before, u));
    }
}

} // verus!
