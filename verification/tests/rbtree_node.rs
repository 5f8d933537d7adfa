use balanced_trees::key::Key;
use balanced_trees::rbtree::node::Node;
use balanced_trees::rbtree::RBTree;

fn is_red<T>(nodes: &[Node<T>], u: Option<usize>) -> bool {
    match u {
        None => false,
        Some(u) => nodes[u].is_red,
    }
}

fn check_invariant<T>(nodes: &[Node<T>], u: Option<usize>) -> usize {
    let u = match u {
        None => return 1,
        Some(u) => u,
    };
    let parent = nodes[u].parent;
    if parent.is_none() {
        assert!(!is_red(nodes, Some(u)), "Root is not black");
    }

    let left = nodes[u].left;
    let right = nodes[u].right;

    assert!(left.is_none() || left != right, "Duplicate child");
    assert!(
        left.is_none() || nodes[left.unwrap()].parent == Some(u),
        "Wrong parent link on the left"
    );
    assert!(
        right.is_none() || nodes[right.unwrap()].parent == Some(u),
        "Wrong parent link on the right"
    );

    if is_red(nodes, right) {
        assert!(is_red(nodes, left), "Not left leaning");
    }

    if is_red(nodes, Some(u)) {
        assert!(!is_red(nodes, left) && !(is_red(nodes, right)), "Two consecutive red edges");
    }

    let left_path = check_invariant(nodes, left);
    let right_path = check_invariant(nodes, right);
    assert_eq!(left_path, right_path, "Different number of black nodes");
    return left_path + if is_red(nodes, Some(u)) { 0 } else { 1 };
}

/// Checks that the keys under `u` lie between `lo` and `hi` in search order,
/// and counts the nodes.
fn check_order<T: Key + PartialOrd>(
    nodes: &[Node<T>],
    u: Option<usize>,
    lo: Option<T>,
    hi: Option<T>,
) -> usize {
    let u = match u {
        None => return 0,
        Some(u) => u,
    };
    let key = nodes[u].key;
    assert!(lo.map_or(true, |lo| lo < key));
    assert!(hi.map_or(true, |hi| key < hi));
    1 + check_order(nodes, nodes[u].left, lo, Some(key))
        + check_order(nodes, nodes[u].right, Some(key), hi)
}

#[test]
fn test_create_root() {
    let nodes = vec![Node::new_root(92)];
    let n = 0;
    check_invariant(&nodes, Some(n));
    assert_eq!(nodes[n].key, 92);
}

#[test]
fn test_insert() {
    let mut nodes = vec![Node::new_root(1)];
    let n = 0;
    Node::insert(&mut nodes, n, 0);
    assert_eq!(nodes[nodes[n].left.unwrap()].key, 0);
    check_invariant(&nodes, Some(n));
    Node::insert(&mut nodes, n, 2);
    assert_eq!(nodes[nodes[n].right.unwrap()].key, 2);
    check_invariant(&nodes, Some(n));
}

#[test]
fn test_insert_two_red_children() {
    let mut nodes = vec![Node::new_root(1)];
    let n = 0;
    Node::insert(&mut nodes, n, 0);
    Node::insert(&mut nodes, n, 2);
    assert_eq!(check_invariant(&nodes, Some(n)), 2);
    assert!(nodes[n].parent.is_none());
    assert!(!nodes[n].is_red);
    let left = &nodes[nodes[n].left.unwrap()];
    let right = &nodes[nodes[n].right.unwrap()];
    assert_eq!(left.key, 0);
    assert_eq!(right.key, 2);
    assert!(left.is_red && left.left.is_none() && left.right.is_none());
    assert!(right.is_red && right.left.is_none() && right.right.is_none());
}

#[test]
fn test_insert_same() {
    let mut nodes = vec![Node::new_root(92)];
    let n = 0;
    Node::insert(&mut nodes, n, 92);
    check_invariant(&nodes, Some(n));
    assert_eq!(nodes[n].left, None);
    assert_eq!(nodes[n].right, None);
    assert_eq!(nodes.len(), 1);
}

#[test]
fn test_insert_left() {
    let mut nodes = vec![Node::new_root(5)];
    let n = 0;
    Node::insert(&mut nodes, n, 4);
    let left = nodes[n].left.unwrap();
    assert_eq!(nodes[left].key, 4);
    check_invariant(&nodes, Some(n));
    Node::insert(&mut nodes, n, 3);
    let left_left = nodes[left].left.unwrap();
    assert_eq!(nodes[left].key, 4);
    assert_eq!(nodes[left_left].key, 3);
    check_invariant(&nodes, Some(n));
    assert!(nodes[left].parent.is_none());
    assert!(nodes[n].parent == Some(left));
    assert!(nodes[nodes[left].left.unwrap()].is_red);
    assert!(nodes[nodes[left].right.unwrap()].is_red);

    Node::insert(&mut nodes, left, 2);
    assert!(nodes[left].parent.is_none());
    check_invariant(&nodes, Some(left));
}

#[test]
fn test_insert_right() {
    let mut nodes = vec![Node::new_root(5)];
    let n = 0;
    Node::insert(&mut nodes, n, 6);
    let root = nodes[n].parent.unwrap();
    assert_eq!(nodes[n].key, 5);
    assert_eq!(nodes[root].key, 6);
    assert!(nodes[root].parent.is_none());
    check_invariant(&nodes, Some(root));
    Node::insert(&mut nodes, root, 7);
    assert!(nodes[root].parent.is_none());
    check_invariant(&nodes, Some(root));

    Node::insert(&mut nodes, root, 8);
    assert!(nodes[root].parent.is_none());
    check_invariant(&nodes, Some(root));
    assert_eq!(nodes[root].key, 6);
    assert_eq!(nodes[nodes[root].left.unwrap()].key, 5);
    assert_eq!(nodes[nodes[root].right.unwrap()].key, 8);
    assert_eq!(nodes[nodes[nodes[root].right.unwrap()].left.unwrap()].key, 7);
}

fn check_inserts(keys: &[u32]) {
    if keys.is_empty() {
        return;
    }
    let mut nodes = vec![Node::new_root(keys[0])];
    let mut root = 0;
    let mut seen = vec![keys[0]];
    for &k in &keys[1..] {
        Node::insert(&mut nodes, root, k);
        if let Some(parent) = nodes[root].parent {
            root = parent;
        }
        assert!(nodes[root].parent.is_none());
        check_invariant(&nodes, Some(root));
        if !seen.contains(&k) {
            seen.push(k);
        }
        assert_eq!(check_order(&nodes, Some(root), None, None), seen.len());
        assert_eq!(nodes.len(), seen.len());
        for &s in &seen {
            assert!(Node::contains(&nodes, root, s));
        }
    }
}

#[test]
fn many_inserts() {
    check_inserts(&[5, 1, 2, 8, 7, 3]);
}

#[test]
fn random_inserts() {
    let n = rand::random::<usize>() % 100;
    let mut elements = vec![];
    for _ in 0..n {
        elements.push(rand::random::<u32>() % 100)
    }
    check_inserts(&elements);
}

#[test]
fn rising_and_falling_inserts() {
    let rising: Vec<u32> = (0..300).collect();
    check_inserts(&rising);
    let falling: Vec<u32> = (0..300).rev().collect();
    check_inserts(&falling);
}

#[test]
fn node_contains_misses() {
    let mut nodes = vec![Node::new_root(10)];
    let mut root = 0;
    for k in [20, 30, 40, 50, 25] {
        Node::insert(&mut nodes, root, k);
        if let Some(parent) = nodes[root].parent {
            root = parent;
        }
    }
    for k in [10, 20, 25, 30, 40, 50] {
        assert!(Node::contains(&nodes, root, k));
    }
    for k in [0, 15, 26, 45, 60] {
        assert!(!Node::contains(&nodes, root, k));
    }
}

#[test]
fn tree_keeps_the_rules() {
    let mut tree: RBTree<i64> = RBTree::new();
    let mut x: i64 = 12345;
    let mut count = 0;
    for _ in 0..5000 {
        x = (x * 1103515245 + 12345) % 2147483648;
        let key = x % 4000 - 2000;
        if !tree.contains(key) {
            count += 1;
        }
        tree.insert(key);
        assert!(tree.contains(key));
        assert_eq!(tree.len(), count);
    }
    let nodes = tree.nodes();
    let root = tree.root();
    assert!(nodes[root.unwrap()].parent.is_none());
    check_invariant(nodes, root);
    assert_eq!(check_order(nodes, root, None, None), count);
}

#[test]
fn extreme_keys() {
    let mut tree: RBTree<i64> = RBTree::new();
    for key in [0, i64::MAX, i64::MIN, -1, 1, i64::MAX - 1, i64::MIN + 1] {
        tree.insert(key);
        check_invariant(tree.nodes(), tree.root());
    }
    for key in [0, i64::MAX, i64::MIN, -1, 1, i64::MAX - 1, i64::MIN + 1] {
        assert!(tree.contains(key));
    }
    assert!(!tree.contains(2));
    assert_eq!(tree.len(), 7);
}

#[test]
fn shape_after_rising_keys() {
    let mut tree: RBTree<u8> = RBTree::new();
    tree.insert(1);
    assert_eq!(tree.root(), Some(0));
    assert!(!tree.nodes()[0].is_red);

    // A red link to the right is turned to the left.
    tree.insert(2);
    assert_eq!(tree.root(), Some(1));
    {
        let nodes = tree.nodes();
        assert!(!nodes[1].is_red && nodes[1].parent.is_none());
        assert_eq!(nodes[1].left, Some(0));
        assert_eq!(nodes[1].right, None);
        assert!(nodes[0].is_red && nodes[0].parent == Some(1));
    }

    // A black node may have two red children.
    tree.insert(3);
    assert_eq!(tree.root(), Some(1));
    {
        let nodes = tree.nodes();
        assert_eq!(nodes[1].right, Some(2));
        assert!(nodes[0].is_red && nodes[2].is_red && !nodes[1].is_red);
    }

    // Below two red children the color is handed down, and the root made
    // black again.
    tree.insert(4);
    assert_eq!(tree.root(), Some(1));
    {
        let nodes = tree.nodes();
        assert_eq!(nodes.len(), 4);
        assert!(!nodes[1].is_red && nodes[1].parent.is_none());
        assert_eq!((nodes[1].left, nodes[1].right), (Some(0), Some(3)));
        assert!(!nodes[0].is_red && !nodes[3].is_red);
        assert_eq!((nodes[3].left, nodes[3].right, nodes[3].parent), (Some(2), None, Some(1)));
        assert!(nodes[2].is_red && nodes[2].parent == Some(3));
        assert_eq!(nodes[2].key, 3);
        assert_eq!(nodes[3].key, 4);
    }
    assert_eq!(check_invariant(tree.nodes(), tree.root()), 3);
}

#[test]
fn shape_after_falling_keys() {
    let mut tree: RBTree<i32> = RBTree::new();
    for key in [3, 2, 1] {
        tree.insert(key);
    }
    // Two red links in a row on the left: the upper one is turned to the right.
    let nodes = tree.nodes();
    assert_eq!(tree.root(), Some(1));
    assert!(!nodes[1].is_red && nodes[1].parent.is_none());
    assert_eq!((nodes[1].left, nodes[1].right), (Some(2), Some(0)));
    assert!(nodes[0].is_red && nodes[2].is_red);
    assert_eq!((nodes[0].key, nodes[1].key, nodes[2].key), (3, 2, 1));
    check_invariant(nodes, tree.root());
}
