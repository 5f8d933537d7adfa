use balanced_trees::btree::node::Node;
use balanced_trees::btree::B;

const XS: [u8; B] = [2, 4, 6, 8, 10, 12];

/// A leaf with `keys`, put in one by one.
fn leaf(keys: &[u8]) -> Node<u8> {
    let mut l = Node::empty();
    for &key in keys {
        assert!(l.insert(key).is_none());
    }
    l
}

/// Checks the subtree under `node` and hands back the depth of its leaves.
fn check_node(node: &Node<i64>, lo: Option<i64>, hi: Option<i64>) -> usize {
    let keys = node.values();
    assert_eq!(keys.len(), node.fill() as usize);
    assert!(keys.len() <= B);
    for pair in keys.windows(2) {
        assert!(pair[0] < pair[1], "keys do not rise");
    }
    for &key in keys {
        assert!(lo.map_or(true, |lo| lo < key));
        assert!(hi.map_or(true, |hi| key < hi));
    }
    if node.child(0).is_none() {
        for i in 0..B + 2 {
            assert!(node.child(i).is_none());
        }
        return 0;
    }
    let mut depth = None;
    for i in 0..keys.len() + 1 {
        let child = node.child(i).expect("an internal node has one child more than keys");
        let below = if i == 0 { lo } else { Some(keys[i - 1]) };
        let above = if i == keys.len() { hi } else { Some(keys[i]) };
        let d = check_node(child, below, above);
        assert!(depth.map_or(true, |depth| depth == d), "leaves at different depths");
        depth = Some(d);
    }
    for i in keys.len() + 1..B + 2 {
        assert!(node.child(i).is_none());
    }
    depth.unwrap() + 1
}

#[test]
fn test_leaf_insert_existing() {
    let mut l = leaf(&XS);
    assert!(l.insert(2).is_none());
    assert_eq!(l.fill(), 6);
    assert_eq!(*l.slots(), XS);
}

#[test]
fn test_leaf_insert_not_split() {
    let mut l = leaf(&[4, 6, 8, 10, 12]);
    assert_eq!(*l.slots(), [4, 6, 8, 10, 12, 0]);
    assert!(l.insert(2).is_none());
    assert_eq!(l.fill(), 6);
    assert_eq!(*l.slots(), XS);
}

#[test]
fn test_leaf_insert_split() {
    let mut l = leaf(&XS);
    let (mid, r) = l.insert(3).expect("Expected a split");
    assert_eq!(l.fill(), 3);
    assert_eq!(*l.slots(), [2, 3, 4, 0, 0, 0]);
    assert_eq!(mid, 6);
    assert_eq!(r.fill(), 3);
    assert_eq!(*r.slots(), [8, 10, 12, 0, 0, 0]);
}

#[test]
fn test_leaf_insert_split_last() {
    let mut l = leaf(&XS);
    let (mid, r) = l.insert(13).expect("Expected a split");
    assert_eq!(l.values(), [2, 4, 6]);
    assert_eq!(mid, 8);
    assert_eq!(r.values(), [10, 12, 13]);
}

#[test]
fn test_empty_leaf() {
    let l: Node<u8> = Node::empty();
    assert_eq!(l.fill(), 0);
    assert!(l.values().is_empty());
    assert!(l.child(0).is_none());
    assert!(!l.contains(0));
}

#[test]
fn test_spill_root() {
    let mut root = leaf(&XS);
    let (mid, right) = root.insert(7).expect("Expected a split");
    root.spill_root(mid, right);
    assert_eq!(root.values(), [7]);
    assert_eq!(root.child(0).unwrap().values(), [2, 4, 6]);
    assert_eq!(root.child(1).unwrap().values(), [8, 10, 12]);
    assert!(root.child(2).is_none());
    for key in [2, 4, 6, 7, 8, 10, 12] {
        assert!(root.contains(key));
    }
    for key in [0, 1, 3, 5, 9, 11, 13] {
        assert!(!root.contains(key));
    }
}

#[test]
fn test_node_keeps_its_shape() {
    let mut root: Node<i64> = Node::empty();
    let mut key: i64 = 17;
    for _ in 0..2000 {
        key = (key * 7919 + 13) % 10007;
        if let Some((mid, right)) = root.insert(key) {
            root.spill_root(mid, right);
        }
        assert!(root.contains(key));
    }
    let depth = check_node(&root, None, None);
    assert!(depth >= 2);
}

#[test]
fn test_internal_split_shares_children() {
    let mut root: Node<i64> = Node::empty();
    for key in 0..200 {
        if let Some((mid, right)) = root.insert(key) {
            root.spill_root(mid, right);
        }
    }
    check_node(&root, None, None);
    for key in 0..200 {
        assert!(root.contains(key));
    }
    assert!(!root.contains(200));
    assert!(!root.contains(-1));
}
