use std::collections::BTreeSet;

use balanced_trees::btree::BTree;
use balanced_trees::int_set::{replay, IntSet, Op};
use balanced_trees::rbtree::RBTree;

fn compare_test<A, B>()
where
    A: IntSet,
    B: IntSet,
{
    let mut atree = A::empty();
    let mut btree = B::empty();

    const N: usize = 100_000;

    for _ in 0..N {
        let q = rand::random::<usize>();
        let r = rand::random::<i64>() % 10_000;
        if q % 3 == 0 {
            atree.put(r);
            btree.put(r);
        } else {
            assert_eq!(atree.get(r), btree.get(r));
        }
    }
}

#[test]
fn btree_vs_btreeset() {
    compare_test::<BTreeSet<i64>, BTree<i64>>();
}

#[test]
fn rbtree_vs_btreeset() {
    compare_test::<BTreeSet<i64>, RBTree<i64>>();
}

#[test]
fn btree_vs_rbtree() {
    compare_test::<BTree<i64>, RBTree<i64>>();
}

#[test]
fn replay_gives_the_answers_of_a_plain_set() {
    let ops = vec![
        Op::Get(5),
        Op::Put(5),
        Op::Get(5),
        Op::Get(-5),
        Op::Put(-5),
        Op::Put(5),
        Op::Get(-5),
        Op::Get(0),
        Op::Put(i64::MIN),
        Op::Put(i64::MAX),
        Op::Get(i64::MIN),
        Op::Get(i64::MAX),
        Op::Get(i64::MAX - 1),
    ];
    let expected = vec![false, true, false, true, false, true, true, false];
    assert_eq!(replay::<BTreeSet<i64>>(&ops), expected);
    assert_eq!(replay::<BTree<i64>>(&ops), expected);
    assert_eq!(replay::<RBTree<i64>>(&ops), expected);
}

#[test]
fn replay_agrees_on_a_long_workload() {
    let mut ops = Vec::new();
    let mut x: i64 = 1;
    for i in 0..30_000 {
        x = (x * 48271) % 2147483647;
        let key = x % 3000 - 1500;
        ops.push(if i % 3 == 0 { Op::Put(key) } else { Op::Get(key) });
    }
    let reference = replay::<BTreeSet<i64>>(&ops);
    assert_eq!(reference.len(), 20_000);
    assert_eq!(replay::<BTree<i64>>(&ops), reference);
    assert_eq!(replay::<RBTree<i64>>(&ops), reference);
}

#[test]
fn replay_of_nothing() {
    assert_eq!(replay::<BTree<i64>>(&Vec::new()), Vec::<bool>::new());
    assert_eq!(replay::<RBTree<i64>>(&Vec::new()), Vec::<bool>::new());
}

#[test]
fn insert_twice_changes_nothing() {
    let mut b: BTree<i64> = BTree::new();
    let mut r: RBTree<i64> = RBTree::new();
    for key in [8, 3, 5, 13, 1, 2, 21, 34, 55, 89] {
        b.insert(key);
        r.insert(key);
    }
    let len = r.len();
    let root = r.root();
    let keys: Vec<i64> = b.root_node().values().to_vec();
    for key in [8, 3, 5, 13, 1, 2, 21, 34, 55, 89] {
        b.insert(key);
        r.insert(key);
        assert!(b.contains(key));
        assert!(r.contains(key));
    }
    assert_eq!(r.len(), len);
    assert_eq!(r.root(), root);
    assert_eq!(b.root_node().values(), &keys[..]);
    assert!(!b.contains(4));
    assert!(!r.contains(4));
}

#[test]
fn empty_trees_hold_nothing() {
    let b: BTree<i64> = BTree::new();
    let r: RBTree<i64> = RBTree::new();
    assert!(!b.contains(0));
    assert!(!r.contains(0));
    assert_eq!(r.len(), 0);
    assert_eq!(r.root(), None);
    assert_eq!(b.root_node().fill(), 0);
}

#[test]
fn btree_grows_when_the_root_splits() {
    let mut b: BTree<u32> = BTree::new();
    for key in 0..6 {
        b.insert(key);
    }
    assert!(b.root_node().child(0).is_none());
    assert_eq!(b.root_node().fill(), 6);
    b.insert(6);
    assert_eq!(b.root_node().values(), [3]);
    assert_eq!(b.root_node().child(0).unwrap().values(), [0, 1, 2]);
    assert_eq!(b.root_node().child(1).unwrap().values(), [4, 5, 6]);
}
