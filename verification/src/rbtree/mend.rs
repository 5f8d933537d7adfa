//! The colors of the tree while it is mended after a red leaf was hung in:
//! what each step of the way up leaves to be done.

use vstd::prelude::*;
use crate::key::Key;
use crate::rbtree::node::{Node, red};
use crate::rbtree::shape::{
    Mark,
    colored,
    gap_free,
    holds,
    joint,
    leads,
    lemma_one_top,
    nested,
    reach,
    top_of,
    tree,
    wf,
};
use crate::rbtree::turn::{
    flip_colors,
    flipped,
    turn_left,
    turn_right,
    turned_left,
    turned_right,
};

verus! {

/// The node without parent once the tree that hung under `top` is mended: `top`
/// itself, or the node that a turn has put above it.
pub open spec fn top_after<T>(nodes: Seq<Node<T>>, top: usize) -> usize {
    match nodes[top as int].parent {
        None => top,
        Some(p) => p,
    }
}

/// One round of the way up from the red node `u`: the nodes after the round,
/// and the node from which the next round starts where the tree is not
/// mended yet. A red root is made black. A red link that leans to the right
/// is turned to the left. Then, where the upper of the two nodes of that
/// link is red as well, the link above it is turned to the right, unless its
/// upper node has two red children: that node hands its color down to them
/// and is the red node of the next round.
pub open spec fn round<T>(nodes: Seq<Node<T>>, u: usize) -> (Seq<Node<T>>, Option<usize>) {
    match nodes[u as int].parent {
        None => (nodes.update(u as int, Node { is_red: false, ..nodes[u as int] }), None),
        Some(w) => {
            let leans = !red(nodes, nodes[w as int].left);
            let turned = if leans {
                turn_left(nodes, w)
            } else {
                nodes
            };
            let upper = if leans {
                u
            } else {
                w
            };
            if !turned[upper as int].is_red {
                (turned, None)
            } else {
                let g = turned[upper as int].parent->0;
                if !red(turned, turned[g as int].right) {
                    (turn_right(turned, g), None)
                } else {
                    (flip_colors(turned, g), Some(g))
                }
            }
        },
    }
}

/// What one round comes to, by the colors that it meets: `turned` are the
/// nodes after the turn to the left, where there is one, and `upper` is the
/// upper node of the red link to `u`, or to the node that was above `u`,
/// after it.
pub(crate) proof fn lemma_round<T>(
    nodes: Seq<Node<T>>,
    u: usize,
    w: usize,
    turned: Seq<Node<T>>,
    upper: usize,
    g: usize,
)
    requires
        nodes[u as int].parent == Some(w),
        turned == if !red(nodes, nodes[w as int].left) {
            turn_left(nodes, w)
        } else {
            nodes
        },
        upper == if !red(nodes, nodes[w as int].left) {
            u
        } else {
            w
        },
        turned[upper as int].is_red ==> turned[upper as int].parent == Some(g),
    ensures
        !turned[upper as int].is_red ==> round(nodes, u) == (turned, None::<usize>),
        turned[upper as int].is_red && !red(turned, turned[g as int].right) ==> round(nodes, u) == (
            turn_right(turned, g),
            None::<usize>,
        ),
        turned[upper as int].is_red && red(turned, turned[g as int].right) ==> round(nodes, u) == (
            flip_colors(turned, g),
            Some(g),
        ),
{
}

/// The nodes after the tree has been mended from the red node `u` upwards,
/// if `rounds` rounds after the first are enough for that.
pub open spec fn run<T>(nodes: Seq<Node<T>>, u: usize, rounds: nat) -> Option<Seq<Node<T>>>
    decreases rounds,
{
    match round(nodes, u).1 {
        None => Some(round(nodes, u).0),
        Some(g) => if rounds == 0 {
            None
        } else {
            run(round(nodes, u).0, g, (rounds - 1) as nat)
        },
    }
}

/// Whether `after` are the nodes `before` mended from the red node `u`
/// upwards, round by round: they hold the keys of `before` in the same
/// places and form a red-black tree again.
pub open spec fn mended<T: Key>(
    before: Seq<Node<T>>,
    after: Seq<Node<T>>,
    top: usize,
    u: usize,
) -> bool {
    &&& exists|rounds: nat| #[trigger] run(before, u, rounds) == Some(after)
    &&& after.len() == before.len()
    &&& forall|i: int| 0 <= i < before.len() ==> (#[trigger] after[i]).key == before[i].key
    &&& exists|marks: Seq<Mark>| tree(after, marks, top_after(after, top), None)
}

/// The node at which the search for `key` from the node `this` ends: the
/// node that holds `key`, or the node that lacks the child under which
/// `key` belongs.
pub open spec fn lands<T: Key>(nodes: Seq<Node<T>>, this: usize, key: T) -> usize
    decreases reach(nodes, this),
{
    let node = nodes[this as int];
    let next = if key.rank() < node.key.rank() {
        node.left
    } else if key.rank() > node.key.rank() {
        node.right
    } else {
        None
    };
    match next {
        Some(child) => if 0 <= reach(nodes, child) < reach(nodes, this) {
            lands(nodes, child, key)
        } else {
            this
        },
        None => this,
    }
}

/// A red root that is made black leaves nothing to mend.
pub(crate) proof fn lemma_blacken<T: Key>(
    nodes: Seq<Node<T>>,
    nodes2: Seq<Node<T>>,
    marks: Seq<Mark>,
    top: usize,
    u: usize,
)
    requires
        tree(nodes, marks, top, Some(u)),
        u < nodes.len(),
        nodes[u as int].parent is None,
        nodes[u as int].is_red,
        nodes2 == nodes.update(u as int, Node { is_red: false, ..nodes[u as int] }),
    ensures
        tree(
            nodes2,
            marks.update(u as int, Mark { black: marks[u as int].black + 1, ..marks[u as int] }),
            top,
            None,
        ),
{
    let marks2 = marks.update(
        u as int,
        Mark { black: marks[u as int].black + 1, ..marks[u as int] },
    );
    assert(joint(nodes, marks, top, u));
    assert forall|i: usize| i < nodes2.len() implies #[trigger] joint(nodes2, marks2, top, i) by {
        assert(joint(nodes, marks, top, i));
        let n = nodes[i as int];
        if n.left is Some {
            assert(joint(nodes, marks, top, n.left->0));
        }
        if n.right is Some {
            assert(joint(nodes, marks, top, n.right->0));
        }
    }
    assert forall|i: usize, j: usize|
        i < nodes2.len() && j < nodes2.len() implies #[trigger] gap_free(
        nodes2,
        marks2,
        i,
        j,
    ) by {
        assert(gap_free(nodes, marks, i, j));
    }
    assert forall|i: usize, j: usize|
        i < nodes2.len() && j < nodes2.len() && i != j implies #[trigger] nested(
        nodes2,
        marks2,
        i,
        j,
    ) by {
        assert(nested(nodes, marks, i, j));
    }
    assert forall|i: usize| i < nodes2.len() implies #[trigger] colored(nodes2, None, i) by {
        assert(colored(nodes, Some(u), i));
        assert(joint(nodes, marks, top, i));
    }
}

/// A red right child `u` under a node `w` whose left child is not red: the
/// turn to the left at `w` puts `u` in the place of `w` and leaves `w` as the
/// red node that may stand under a red parent.
pub(crate) proof fn lemma_lean<T: Key>(
    nodes: Seq<Node<T>>,
    nodes2: Seq<Node<T>>,
    marks: Seq<Mark>,
    top: usize,
    u: usize,
    w: usize,
)
    requires
        tree(nodes, marks, top, Some(u)),
        u < nodes.len(),
        nodes[u as int].is_red,
        nodes[u as int].parent == Some(w),
        !red(nodes, nodes[w as int].left),
        turned_left(nodes, nodes2, w),
    ensures
        nodes[w as int].right == Some(u),
        forall|i: usize| i < nodes2.len() ==> #[trigger] colored(nodes2, Some(w), i),
        nodes2[w as int].is_red,
        nodes2[w as int].parent == Some(u),
        nodes2[u as int].left == Some(w),
        nodes2[u as int].is_red == nodes[w as int].is_red,
        nodes2[u as int].parent == nodes[w as int].parent,
        w == top ==> !nodes2[u as int].is_red,
{
    assert(joint(nodes, marks, top, u));
    assert(joint(nodes, marks, top, w));
    assert(colored(nodes, Some(u), u));
    assert(colored(nodes, Some(u), w));
    assert forall|i: usize| i < nodes2.len() implies #[trigger] colored(nodes2, Some(w), i) by {
        assert(colored(nodes, Some(u), i));
        assert(joint(nodes, marks, top, i));
        let n = nodes[i as int];
        if n.left is Some {
            assert(joint(nodes, marks, top, n.left->0));
        }
        if n.right is Some {
            assert(joint(nodes, marks, top, n.right->0));
        }
    }
}

/// Under a black parent `w` the red node `u` breaks no rule, if it is the
/// left child or has a red left sibling.
pub(crate) proof fn lemma_settled<T: Key>(
    nodes: Seq<Node<T>>,
    marks: Seq<Mark>,
    top: usize,
    u: usize,
    w: usize,
)
    requires
        tree(nodes, marks, top, Some(u)),
        u < nodes.len(),
        nodes[u as int].parent == Some(w),
        !nodes[w as int].is_red,
        nodes[w as int].left == Some(u) || red(nodes, nodes[w as int].left),
    ensures
        tree(nodes, marks, top, None),
{
    assert(joint(nodes, marks, top, u));
    assert(joint(nodes, marks, top, w));
    assert forall|i: usize| i < nodes.len() implies #[trigger] colored(nodes, None, i) by {
        assert(colored(nodes, Some(u), i));
        assert(joint(nodes, marks, top, i));
        let n = nodes[i as int];
        if n.left is Some {
            assert(joint(nodes, marks, top, n.left->0));
        }
        if n.right is Some {
            assert(joint(nodes, marks, top, n.right->0));
        }
    }
}

/// A red node `u` under a red parent `w`: `u` is the left child, `w` has a
/// black parent `g` and no red right child, and the span of `g` is wider
/// than that of `u`. Where the right child of `g` is not red, `w` is the left
/// child of `g`; where it is red, both children of `g` are.
pub(crate) proof fn lemma_grand<T: Key>(nodes: Seq<Node<T>>, marks: Seq<Mark>, top: usize, u: usize, w: usize)
    requires
        tree(nodes, marks, top, Some(u)),
        u < nodes.len(),
        nodes[u as int].is_red,
        nodes[u as int].parent == Some(w),
        nodes[w as int].is_red,
        nodes[w as int].left == Some(u) || red(nodes, nodes[w as int].left),
    ensures
        nodes[w as int].left == Some(u),
        !red(nodes, nodes[w as int].right),
        nodes[w as int].parent is Some,
        nodes[w as int].parent->0 < nodes.len(),
        !nodes[nodes[w as int].parent->0 as int].is_red,
        !red(nodes, nodes[nodes[w as int].parent->0 as int].right) ==> nodes[nodes[w as int].parent->0 as int].left
            == Some(w),
        red(nodes, nodes[nodes[w as int].parent->0 as int].right) ==> red(
            nodes,
            nodes[nodes[w as int].parent->0 as int].left,
        ),
        marks[nodes[w as int].parent->0 as int].hi - marks[nodes[w as int].parent->0 as int].lo
            > marks[u as int].hi - marks[u as int].lo,
{
    assert(joint(nodes, marks, top, u));
    assert(joint(nodes, marks, top, w));
    assert(colored(nodes, Some(u), u));
    assert(colored(nodes, Some(u), w));
    let g = nodes[w as int].parent->0;
    assert(joint(nodes, marks, top, g));
    assert(colored(nodes, Some(u), g));
}

/// The turn to the right at the black grandparent `g` of `u`, over the red
/// parent `w`, leaves nothing to mend.
pub(crate) proof fn lemma_straighten<T: Key>(
    nodes: Seq<Node<T>>,
    nodes2: Seq<Node<T>>,
    marks: Seq<Mark>,
    top: usize,
    u: usize,
    w: usize,
    g: usize,
)
    requires
        tree(nodes, marks, top, Some(u)),
        u < nodes.len(),
        nodes[u as int].is_red,
        nodes[u as int].parent == Some(w),
        nodes[w as int].left == Some(u),
        nodes[w as int].is_red,
        !red(nodes, nodes[w as int].right),
        nodes[w as int].parent == Some(g),
        !nodes[g as int].is_red,
        nodes[g as int].left == Some(w),
        !red(nodes, nodes[g as int].right),
        turned_right(nodes, nodes2, g),
    ensures
        forall|i: usize| i < nodes2.len() ==> #[trigger] colored(nodes2, None, i),
{
    assert(joint(nodes, marks, top, u));
    assert(joint(nodes, marks, top, w));
    assert(joint(nodes, marks, top, g));
    assert(colored(nodes, Some(u), u));
    assert(colored(nodes, Some(u), w));
    assert(colored(nodes, Some(u), g));
    assert forall|i: usize| i < nodes2.len() implies #[trigger] colored(nodes2, None, i) by {
        assert(colored(nodes, Some(u), i));
        assert(joint(nodes, marks, top, i));
        let n = nodes[i as int];
        if n.left is Some {
            assert(joint(nodes, marks, top, n.left->0));
        }
        if n.right is Some {
            assert(joint(nodes, marks, top, n.right->0));
        }
    }
}

/// Where the black grandparent `g` of `u` hands its color down to its two
/// red children, `g` becomes the red node that may stand under a red parent.
pub(crate) proof fn lemma_pass_up<T: Key>(
    nodes: Seq<Node<T>>,
    nodes2: Seq<Node<T>>,
    marks: Seq<Mark>,
    top: usize,
    u: usize,
    w: usize,
    g: usize,
)
    requires
        tree(nodes, marks, top, Some(u)),
        u < nodes.len(),
        nodes[u as int].is_red,
        nodes[u as int].parent == Some(w),
        nodes[w as int].left == Some(u),
        nodes[w as int].is_red,
        !red(nodes, nodes[w as int].right),
        nodes[w as int].parent == Some(g),
        !nodes[g as int].is_red,
        red(nodes, nodes[g as int].left),
        red(nodes, nodes[g as int].right),
        flipped(nodes, nodes2, g),
    ensures
        forall|i: usize| i < nodes2.len() ==> #[trigger] colored(nodes2, Some(g), i),
        nodes2[g as int].is_red,
{
    assert(joint(nodes, marks, top, u));
    assert(joint(nodes, marks, top, w));
    assert(joint(nodes, marks, top, g));
    assert(colored(nodes, Some(u), u));
    assert(colored(nodes, Some(u), w));
    assert(colored(nodes, Some(u), g));
    let l = nodes[g as int].left->0;
    let r = nodes[g as int].right->0;
    assert(joint(nodes, marks, top, l));
    assert(joint(nodes, marks, top, r));
    assert forall|i: usize| i < nodes2.len() implies #[trigger] colored(nodes2, Some(g), i) by {
        assert(colored(nodes, Some(u), i));
        assert(joint(nodes, marks, top, i));
        let n = nodes[i as int];
        if n.left is Some {
            assert(joint(nodes, marks, top, n.left->0));
        }
        if n.right is Some {
            assert(joint(nodes, marks, top, n.right->0));
        }
    }
}

/// The nodes `before` with a red leaf for `key` hung under `c`, on the side
/// on which `key` belongs.
pub open spec fn hung_leaf<T: Key>(before: Seq<Node<T>>, c: usize, key: T) -> Seq<Node<T>> {
    let leaf = Some(before.len() as usize);
    let parent = if key.rank() < before[c as int].key.rank() {
        Node { left: leaf, ..before[c as int] }
    } else {
        Node { right: leaf, ..before[c as int] }
    };
    before.update(c as int, parent).push(
        Node { parent: Some(c), is_red: true, key: key, left: None, right: None },
    )
}

/// The marks that go with `hung_leaf`.
pub open spec fn marks_leaf<T: Key>(before: Seq<Node<T>>, marks: Seq<Mark>, c: usize, key: T) -> Seq<
    Mark,
> {
    if key.rank() < before[c as int].key.rank() {
        marks.push(Mark { lo: marks[c as int].lo, hi: before[c as int].key.rank(), black: 1 })
    } else {
        marks.push(Mark { lo: before[c as int].key.rank(), hi: marks[c as int].hi, black: 1 })
    }
}

/// Where the search for a key ends at a missing child, no node holds the key.
pub(crate) proof fn lemma_absent<T: Key>(nodes: Seq<Node<T>>, marks: Seq<Mark>, top: usize, c: usize, key: T)
    requires
        tree(nodes, marks, top, None),
        c < nodes.len(),
        marks[c as int].lo < key.rank() < marks[c as int].hi,
        key.rank() != nodes[c as int].key.rank(),
        key.rank() < nodes[c as int].key.rank() ==> nodes[c as int].left is None,
        key.rank() > nodes[c as int].key.rank() ==> nodes[c as int].right is None,
    ensures
        !holds(nodes, key),
{
    assert forall|i: int| 0 <= i < nodes.len() implies (#[trigger] nodes[i]).key != key by {
        assert(gap_free(nodes, marks, c, i as usize));
    }
}

/// Where the search for a key ends at a missing child, no node holds the
/// key, and a red leaf hung there for it leaves a tree in which only that
/// leaf may break the rules of color.
pub(crate) proof fn lemma_hang<T: Key>(nodes: Seq<Node<T>>, marks: Seq<Mark>, top: usize, c: usize, key: T)
    requires
        tree(nodes, marks, top, None),
        nodes.len() < usize::MAX,
        c < nodes.len(),
        marks[c as int].lo < key.rank() < marks[c as int].hi,
        key.rank() != nodes[c as int].key.rank(),
        key.rank() < nodes[c as int].key.rank() ==> nodes[c as int].left is None,
        key.rank() > nodes[c as int].key.rank() ==> nodes[c as int].right is None,
    ensures
        !holds(nodes, key),
        tree(
            hung_leaf(nodes, c, key),
            marks_leaf(nodes, marks, c, key),
            top,
            Some(nodes.len() as usize),
        ),
{
    let nodes2 = hung_leaf(nodes, c, key);
    let marks2 = marks_leaf(nodes, marks, c, key);
    let leaf = nodes.len() as usize;
    assert(joint(nodes, marks, top, c));
    assert forall|i: int| 0 <= i < nodes.len() implies (#[trigger] nodes[i]).key != key by {
        assert(gap_free(nodes, marks, c, i as usize));
    }
    assert forall|i: usize| i < nodes2.len() implies #[trigger] joint(nodes2, marks2, top, i) by {
        if i < nodes.len() {
            assert(joint(nodes, marks, top, i));
        }
    }
    assert forall|i: usize, j: usize|
        i < nodes2.len() && j < nodes2.len() implies #[trigger] gap_free(nodes2, marks2, i, j) by {
        if j < nodes.len() {
            assert(gap_free(nodes, marks, c, j));
            if i < nodes.len() {
                assert(gap_free(nodes, marks, i, j));
            }
        } else if i < nodes.len() && i != c {
            assert(joint(nodes, marks, top, i));
            assert(gap_free(nodes, marks, i, c));
            assert(gap_free(nodes, marks, c, i));
            assert(nested(nodes, marks, i, c));
        }
    }
    assert forall|i: usize, j: usize|
        i < nodes2.len() && j < nodes2.len() && i != j implies #[trigger] nested(
        nodes2,
        marks2,
        i,
        j,
    ) by {
        if i < nodes.len() && j < nodes.len() {
            assert(nested(nodes, marks, i, j));
        } else {
            let o = if i < nodes.len() {
                i
            } else {
                j
            };
            assert(joint(nodes, marks, top, o));
            if o != c {
                assert(nested(nodes, marks, o, c));
                assert(nested(nodes, marks, c, o));
                assert(gap_free(nodes, marks, c, o));
            }
        }
    }
    assert forall|i: usize| i < nodes2.len() implies #[trigger] colored(nodes2, Some(leaf), i) by {
        if i < nodes.len() {
            assert(colored(nodes, None, i));
            assert(joint(nodes, marks, top, i));
        }
    }
}

/// Whether `after` is the tree `before` with `key` put in by a search that
/// passes the node `this`. If `key` was there, nothing has changed. If not,
/// a red leaf for `key` was hung in as the last node, where the search
/// ended, and the tree was mended from there upwards. The result is a tree
/// again, with `key` besides the keys that were there, each in the place
/// where it was. The root is the old one or the node that a turn has put
/// above it.
pub open spec fn grown<T: Key>(
    before: Seq<Node<T>>,
    after: Seq<Node<T>>,
    this: usize,
    key: T,
) -> bool {
    &&& wf(after)
    &&& top_of(after) == top_after(after, top_of(before))
    &&& forall|k: T| holds(after, k) <==> holds(before, k) || k == key
    &&& holds(before, key) ==> after == before
    &&& !holds(before, key) ==> {
        &&& after.len() == before.len() + 1
        &&& after[before.len() as int].key == key
        &&& exists|rounds: nat| #[trigger]
            run(hung_leaf(before, lands(before, this, key), key), before.len() as usize, rounds)
                == Some(after)
    }
    &&& forall|i: int| 0 <= i < before.len() ==> (#[trigger] after[i]).key == before[i].key
}

/// Hanging a leaf for a new key into a tree and mending the tree makes it grow
/// by that key.
pub(crate) proof fn lemma_grown<T: Key>(
    before: Seq<Node<T>>,
    after: Seq<Node<T>>,
    top: usize,
    c: usize,
    key: T,
)
    requires
        leads(before, c, key),
        top == top_of(before),
        !holds(before, key),
        lands(before, c, key) == c,
        mended(hung_leaf(before, c, key), after, top, before.len() as usize),
    ensures
        grown(before, after, c, key),
{
    let middle = hung_leaf(before, c, key);
    let marks = choose|marks: Seq<Mark>| tree(after, marks, top_after(after, top), None);
    lemma_one_top(after, marks, top_after(after, top));
    assert forall|k: T| holds(after, k) <==> holds(before, k) || k == key by {
        if holds(after, k) {
            let i = choose|i: int| 0 <= i < after.len() && (#[trigger] after[i]).key == k;
            assert(middle[i].key == k);
            if i < before.len() {
                assert(before[i].key == k);
            }
        }
        if holds(before, k) {
            let i = choose|i: int| 0 <= i < before.len() && (#[trigger] before[i]).key == k;
            assert(after[i].key == middle[i].key);
        }
        if k == key {
            assert(after[before.len() as int].key == middle[before.len() as int].key);
        }
    }
}

} // verus!
