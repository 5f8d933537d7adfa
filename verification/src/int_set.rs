//! What both indexes offer, as sets of `i64` keys, and a workload that any
//! such set answers in one way only.

use std::collections::BTreeSet;
use vstd::prelude::*;

verus! {

/// A set of integers that can take in keys and tell whether it has a key.
pub trait IntSet: Sized {
    /// Whether the set is sound.
    spec fn valid(&self) -> bool;

    /// The keys in the set.
    spec fn keys(&self) -> Set<i64>;

    /// A set without keys.
    fn empty() -> (set: Self)
        ensures
            set.valid(),
            set.keys() == Set::<i64>::empty(),
    ;

    /// Whether `key` is in the set.
    fn get(&self, key: i64) -> (found: bool)
        requires
            self.valid(),
        ensures
            found == self.keys().contains(key),
    ;

    /// Puts `key` into the set; a key that is there already changes nothing.
    fn put(&mut self, key: i64)
        requires
            old(self).valid(),
        ensures
            final(self).valid(),
            final(self).keys() == old(self).keys().insert(key),
    ;
}

impl IntSet for BTreeSet<i64> {
    open spec fn valid(&self) -> bool {
        true
    }

    open spec fn keys(&self) -> Set<i64> {
        self@
    }

    fn empty() -> (set: Self) {
        BTreeSet::new()
    }

    fn get(&self, key: i64) -> (found: bool) {
        broadcast use vstd::laws_cmp::group_laws_cmp;
        broadcast use vstd::std_specs::btree::group_btree_axioms;

        self.contains(&key)
    }

    fn put(&mut self, key: i64) {
        broadcast use vstd::laws_cmp::group_laws_cmp;

        self.insert(key);
    }
}

/// One step of a workload: put a key in, or ask for a key.
#[derive(Clone, Copy, Debug)]
pub enum Op {
    Put(i64),
    Get(i64),
}

/// The keys that are in a set, empty at first, after the steps `ops`.
pub open spec fn keys_after(ops: Seq<Op>) -> Set<i64>
    decreases ops.len(),
{
    if ops.len() == 0 {
        Set::empty()
    } else {
        match ops.last() {
            Op::Put(key) => keys_after(ops.drop_last()).insert(key),
            Op::Get(_) => keys_after(ops.drop_last()),
        }
    }
}

/// The answers that the steps `ops` ask for, in their order: for each `Get`,
/// whether the key is among the keys put in before it.
pub open spec fn answers(ops: Seq<Op>) -> Seq<bool>
    decreases ops.len(),
{
    if ops.len() == 0 {
        Seq::empty()
    } else {
        match ops.last() {
            Op::Put(_) => answers(ops.drop_last()),
            Op::Get(key) => answers(ops.drop_last()).push(
                keys_after(ops.drop_last()).contains(key),
            ),
        }
    }
}

/// Runs the steps `ops` on a set of kind `A` that is empty at first, and
/// hands back the answers. Whatever the kind of set, the answers are those
/// of the plain set of keys: any two kinds agree on every answer after every
/// step.
pub fn replay<A: IntSet>(ops: &Vec<Op>) -> (found: Vec<bool>)
    ensures
        found@ == answers(ops@),
{
    let mut set = A::empty();
    let mut found: Vec<bool> = Vec::new();
    let mut i: usize = 0;
    while i < ops.len()
        invariant
            i <= ops@.len(),
            set.valid(),
            set.keys() == keys_after(ops@.take(i as int)),
            found@ == answers(ops@.take(i as int)),
        decreases ops@.len() - i,
    {
        proof {
            assert(ops@.take(i + 1).drop_last() =~= ops@.take(i as int));
            assert(ops@.take(i + 1).last() == ops@[i as int]);
        }
        match ops[i] {
            Op::Put(key) => set.put(key),
            Op::Get(key) => found.push(set.get(key)),
        }
        i += 1;
    }
    proof {
        assert(ops@.take(i as int) =~= ops@);
    }
    found
}

} // verus!
