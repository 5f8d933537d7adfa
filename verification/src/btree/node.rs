//! One node of the B-tree, with the subtree that hangs below it.

use vstd::prelude::*;
use crate::btree::family::{
    gathered,
    lemma_adopt,
    lemma_cut,
    lemma_insert_key,
    lemma_one_gap,
    lemma_replace,
    ordered,
};
use crate::btree::slice_util::{
    insert_split,
    insert_split_spill,
    is_default,
    left_keys,
    left_slots,
    right_keys,
    right_slots,
    shift,
};
use crate::btree::{B, SLOTS};
use crate::key::{Key, ascending, between};

verus! {

/// A node holds up to `B` keys in rising order and, unless it is a leaf, one
/// child more than it has keys.
#[derive(Debug)]
pub struct Node<T: Copy> {
    fill: u8,
    values: [T; B],
    children: Option<[Option<Box<Node<T>>>; SLOTS]>,
}

/// For each of `kids`, the set of keys that it stores at most `h` levels down.
pub open spec fn sets_of<T: Key>(kids: Seq<Node<T>>, h: nat) -> Seq<Set<T>> {
    Seq::new(kids.len(), |i: int| Set::new(|key: T| kids[i].reaches(key, h)))
}

impl<T: Key> View for Node<T> {
    type V = Set<T>;

    /// The keys in this node and below it.
    open spec fn view(&self) -> Set<T> {
        Set::new(|key: T| self.holds(key))
    }
}

impl<T: Key> Node<T> {
    /// The number of keys in this node.
    pub closed spec fn len(&self) -> int {
        self.fill as int
    }

    /// The keys of this node, in the order in which it stores them.
    pub closed spec fn keys(&self) -> Seq<T> {
        self.values@.take(self.fill as int)
    }

    /// Whether this node has no children.
    pub closed spec fn is_leaf(&self) -> bool {
        self.children is None
    }

    /// The children of this node, from left to right: none for a leaf, one
    /// more than the keys for an internal node.
    pub closed spec fn kids(&self) -> Seq<Node<T>> {
        match self.children {
            None => Seq::empty(),
            Some(slots) => Seq::new((self.fill + 1) as nat, |i: int| *slots@[i]->0),
        }
    }

    /// Whether the occupied child slots of an internal node are exactly the
    /// first `len() + 1`, and the node has room for its keys.
    pub closed spec fn packed(&self) -> bool {
        &&& self.fill <= B
        &&& self.children matches Some(slots) ==> forall|i: int|
            0 <= i < SLOTS ==> ((#[trigger] slots@[i]) is Some <==> i <= self.fill)
    }

    /// Whether `key` is stored in this node or at most `h` levels below it.
    pub open spec fn reaches(&self, key: T, h: nat) -> bool
        decreases h,
    {
        ||| self.keys().contains(key)
        ||| h > 0 && exists|i: int|
            0 <= i < self.kids().len() && (#[trigger] self.kids()[i]).reaches(key, (h - 1) as nat)
    }

    /// For each child, the set of keys stored at most `h` levels below this node.
    pub open spec fn lower(&self, h: nat) -> Seq<Set<T>> {
        sets_of(self.kids(), h)
    }

    /// Whether this node is the root of a sound subtree whose leaves all lie
    /// exactly `h` levels below it: in every node the keys rise strictly and
    /// number at most `B`, an internal node has one child more than it has
    /// keys, and the keys below child `i` lie between key `i - 1` and key `i`
    /// of the node.
    pub open spec fn shaped(&self, h: nat) -> bool
        decreases h,
    {
        &&& self.packed()
        &&& 0 <= self.len() <= B
        &&& self.keys().len() == self.len()
        &&& h == 0 <==> self.is_leaf()
        &&& self.is_leaf() ==> self.kids().len() == 0
        &&& !self.is_leaf() ==> self.kids().len() == self.len() + 1
        &&& forall|i: int|
            0 <= i < self.kids().len() ==> (#[trigger] self.kids()[i]).shaped((h - 1) as nat)
        &&& ordered(self.keys(), self.lower((h - 1) as nat))
    }

    /// Whether this node is the root of a sound subtree.
    pub open spec fn wf(&self) -> bool {
        exists|h: nat| self.shaped(h)
    }

    /// The number of levels between this node and its leaves.
    pub open spec fn height(&self) -> nat {
        choose|h: nat| self.shaped(h)
    }

    /// Whether `key` is stored in this node or anywhere below it.
    pub open spec fn holds(&self, key: T) -> bool {
        self.reaches(key, self.height())
    }

    /// Whether putting `key` into this subtree, whose leaves lie `h` levels
    /// down, makes this node split: the key is new, and this node and every
    /// node on the way down to the key's leaf is full.
    pub open spec fn overflows(&self, key: T, h: nat) -> bool
        decreases h,
    {
        &&& !self.keys().contains(key)
        &&& self.len() == B
        &&& h > 0 ==> exists|i: int|
            0 <= i < self.kids().len() && between(self.keys(), i, key) && (
            #[trigger] self.kids()[i]).overflows(key, (h - 1) as nat)
    }

    /// Whether `keys` and `kids` are the keys and children of this node, whose
    /// leaves lie `h` levels down, after `key`, which is new to the subtree,
    /// was put in; for a node that split, those of both halves with the
    /// median between them. With `at` the gap of `key`: a leaf has `key` at
    /// place `at`. In an internal node the child of that gap took the key in
    /// in the same way, and no other child changed; if that child split, its
    /// median stands at place `at` and its new right sibling is the child
    /// after it.
    pub open spec fn took_in(&self, key: T, keys: Seq<T>, kids: Seq<Node<T>>, h: nat) -> bool
        decreases h,
    {
        exists|at: int|
            {
                &&& #[trigger] between(self.keys(), at, key)
                &&& if h == 0 {
                    &&& keys == self.keys().insert(at, key)
                    &&& kids.len() == 0
                } else {
                    ||| {
                        &&& !self.kids()[at].overflows(key, (h - 1) as nat)
                        &&& keys == self.keys()
                        &&& kids == self.kids().update(at, kids[at])
                        &&& self.kids()[at].took_in(
                            key,
                            kids[at].keys(),
                            kids[at].kids(),
                            (h - 1) as nat,
                        )
                    }
                    ||| {
                        &&& self.kids()[at].overflows(key, (h - 1) as nat)
                        &&& keys == self.keys().insert(at, keys[at])
                        &&& kids == self.kids().update(at, kids[at]).insert(at + 1, kids[at + 1])
                        &&& kids[at].keys().len() == left_keys()
                        &&& self.kids()[at].took_in(
                            key,
                            kids[at].keys().push(keys[at]) + kids[at + 1].keys(),
                            kids[at].kids() + kids[at + 1].kids(),
                            (h - 1) as nat,
                        )
                    }
                }
            }
    }

    /// Whether this node and `right` are what a split leaves: two sound
    /// subtrees of one height, this one below `median` and `right` above it.
    pub open spec fn halves_with(&self, median: T, right: Node<T>) -> bool {
        &&& self.wf()
        &&& right.wf()
        &&& right.height() == self.height()
        &&& forall|k: T| #[trigger] self.holds(k) ==> k.rank() < median.rank()
        &&& forall|k: T| #[trigger] right.holds(k) ==> median.rank() < k.rank()
    }

    /// Whether putting `key` into this subtree makes this node split.
    pub open spec fn splits_on(&self, key: T) -> bool {
        self.overflows(key, self.height())
    }

    /// What a node reaches is what its keys and the sets below its children hold.
    pub proof fn lemma_reaches(&self, key: T, h: nat)
        requires
            h > 0 || self.kids().len() == 0,
        ensures
            self.reaches(key, h) <==> gathered(self.keys(), self.lower((h - 1) as nat)).contains(
                key,
            ),
    {
        let below = self.lower((h - 1) as nat);
        if self.reaches(key, h) && !self.keys().contains(key) {
            let i = choose|i: int|
                0 <= i < self.kids().len() && (#[trigger] self.kids()[i]).reaches(
                    key,
                    (h - 1) as nat,
                );
            assert(below[i].contains(key));
        }
        if gathered(self.keys(), below).contains(key) && !self.keys().contains(key) {
            let i = choose|i: int| 0 <= i < below.len() && #[trigger] below[i].contains(key);
            assert(self.kids()[i].reaches(key, (h - 1) as nat));
        }
    }

    /// A sound subtree has one height only.
    pub proof fn lemma_one_height(&self, h1: nat, h2: nat)
        requires
            self.shaped(h1),
            self.shaped(h2),
        ensures
            h1 == h2,
        decreases h1,
    {
        if h1 > 0 {
            self.kids()[0].lemma_one_height((h1 - 1) as nat, (h2 - 1) as nat);
        }
    }

    /// The height of a sound subtree is the one that its shape gives.
    pub proof fn lemma_height(&self, h: nat)
        requires
            self.shaped(h),
        ensures
            self.wf(),
            self.height() == h,
    {
        self.lemma_one_height(h, self.height());
    }

    /// What soundness says of one node: its keys rise strictly and number at
    /// most `B`; a leaf has no children and an internal node one more than it
    /// has keys; every child is sound and one level lower, so that all leaves
    /// lie at one depth; and the keys below child `i` lie in gap `i` of the
    /// node's keys.
    pub proof fn lemma_invariants(&self)
        requires
            self.wf(),
        ensures
            0 <= self.len() <= B,
            self.keys().len() == self.len(),
            ascending(self.keys()),
            self.is_leaf() <==> self.height() == 0,
            self.is_leaf() ==> self.kids().len() == 0,
            !self.is_leaf() ==> self.kids().len() == self.len() + 1,
            forall|i: int|
                0 <= i < self.kids().len() ==> (#[trigger] self.kids()[i]).wf() && self.kids()[i].height()
                    + 1 == self.height(),
            forall|i: int, key: T|
                0 <= i < self.kids().len() && #[trigger] self.kids()[i].holds(key) ==> between(
                    self.keys(),
                    i,
                    key,
                ),
    {
        let h = self.height();
        assert(self.shaped(h));
        assert forall|i: int| 0 <= i < self.kids().len() implies (#[trigger] self.kids()[i]).wf()
            && self.kids()[i].height() + 1 == self.height() by {
            self.kids()[i].lemma_height((h - 1) as nat);
        }
        assert forall|i: int, key: T|
            0 <= i < self.kids().len() && #[trigger] self.kids()[i].holds(key) implies between(
            self.keys(),
            i,
            key,
        ) by {
            self.kids()[i].lemma_height((h - 1) as nat);
            assert(self.lower((h - 1) as nat)[i].contains(key));
        }
    }

    /// A leaf without keys.
    pub fn empty() -> (node: Node<T>) where T: Default
        ensures
            node.wf(),
            node.is_leaf(),
            node.len() == 0,
            forall|key: T| !node.holds(key),
    {
        let node = Node { fill: 0, values: [T::default(); B], children: None };
        proof {
            assert(node.shaped(0));
            node.lemma_height(0);
        }
        node
    }

    /// The number of keys in this node.
    pub fn fill(&self) -> (n: u8)
        ensures
            n == self.len(),
    {
        self.fill
    }

    /// The places for keys of this node: first its keys, then unused places.
    pub fn slots(&self) -> (all: &[T; B])
        ensures
            self.len() <= B ==> all@.take(self.len()) == self.keys(),
    {
        &self.values
    }

    /// The child in place `i`, if this node has one there.
    pub fn child(&self, i: usize) -> (kid: Option<&Node<T>>)
        ensures
            self.wf() ==> match kid {
                Some(node) => i < self.kids().len() && *node == self.kids()[i as int],
                None => i >= self.kids().len(),
            },
    {
        proof {
            if self.wf() {
                assert(self.shaped(self.height()));
            }
        }
        match &self.children {
            None => None,
            Some(slots) => {
                if i < SLOTS {
                    match &slots[i] {
                        Some(node) => Some(&**node),
                        None => None,
                    }
                } else {
                    None
                }
            },
        }
    }

    /// The keys of this node.
    pub fn values(&self) -> (keys: &[T])
        requires
            self.len() <= B,
        ensures
            keys@ == self.keys(),
    {
        &self.values[0..self.fill as usize]
    }

    /// A node with one key between two sound subtrees of one height is sound
    /// and holds that key and what the two subtrees hold.
    proof fn lemma_new_root(now: Node<T>, left: Node<T>, right: Node<T>, key: T, h: nat)
        requires
            left.shaped(h),
            right.shaped(h),
            forall|k: T| #[trigger] left.holds(k) ==> k.rank() < key.rank(),
            forall|k: T| #[trigger] right.holds(k) ==> key.rank() < k.rank(),
            now.packed(),
            now.len() == 1,
            !now.is_leaf(),
            now.keys() == seq![key],
            now.kids() == seq![left, right],
        ensures
            now.wf(),
            now.height() == h + 1,
            forall|k: T|
                #![trigger now.holds(k)]
                #![trigger left.holds(k)]
                #![trigger right.holds(k)]
                now.holds(k) <==> left.holds(k) || k == key || right.holds(k),
    {
        let kids = seq![left, right];
        let below = sets_of(kids, h);
        left.lemma_height(h);
        right.lemma_height(h);
        assert forall|i: int, k: T|
            0 <= i < below.len() && #[trigger] below[i].contains(k) implies between(
            now.keys(),
            i,
            k,
        ) by {
            assert(kids[i].holds(k));
        }
        now.lemma_sound(h + 1);
        assert forall|k: T|
            #![trigger now.holds(k)]
            #![trigger left.holds(k)]
            #![trigger right.holds(k)]
            now.holds(k) <==> left.holds(k) || k == key || right.holds(k) by {
            if now.holds(k) && k != key {
                assert(now.keys()[0] == key);
                let i = choose|i: int| 0 <= i < below.len() && #[trigger] below[i].contains(k);
                assert(kids[i].holds(k));
            }
            if left.holds(k) {
                assert(below[0].contains(k));
            }
            if right.holds(k) {
                assert(below[1].contains(k));
            }
            if k == key {
                assert(now.keys()[0] == k);
            }
        }
    }

    /// Turns this node, the root of a tree that has just split, into a new
    /// root one level higher: its contents move to a new first child, `node`
    /// becomes the second child, and `key` is the only key.
    pub fn spill_root(&mut self, key: T, node: Node<T>) where T: Default
        ensures
            !final(self).is_leaf(),
            final(self).len() == 1,
            final(self).keys() == seq![key],
            final(self).kids() == seq![*old(self), node],
            old(self).halves_with(key, node) ==> {
                &&& final(self).wf()
                &&& final(self).height() == old(self).height() + 1
                &&& forall|k: T|
                    #![trigger final(self).holds(k)]
                    #![trigger old(self).holds(k)]
                    #![trigger node.holds(k)]
                    final(self).holds(k) <==> old(self).holds(k) || k == key || node.holds(k)
            },
    {
        let ghost before = *self;
        let ghost h = self.height();
        let mut values: [T; B] = [T::default(); B];
        values[0] = key;
        core::mem::swap(&mut values, &mut self.values);
        let mut children: Option<[Option<Box<Node<T>>>; SLOTS]> = Some(
            [None, None, None, None, None, None, None],
        );
        core::mem::swap(&mut children, &mut self.children);
        let mut fill: u8 = 1;
        core::mem::swap(&mut fill, &mut self.fill);
        let slots = self.children.as_mut().unwrap();
        slots[0] = Some(Box::new(Node { fill: fill, values: values, children: children }));
        slots[1] = Some(Box::new(node));
        proof {
            assert(self.keys() =~= seq![key]);
            assert(self.kids() =~= seq![before, node]);
            if before.halves_with(key, node) {
                assert(before.shaped(h));
                assert(node.shaped(h));
                Self::lemma_new_root(*self, before, node, key, h);
            }
        }
    }

    /// Whether this node has no room for another key.
    fn is_full(&self) -> (full: bool)
        ensures
            full == (self.len() == B),
    {
        self.fill as usize == B
    }

    /// Looks for `key` among the keys of this node: `Ok` with its place where
    /// it is there, else `Err` with the gap in which it belongs.
    fn insertion_point(&self, key: T) -> (place: Result<usize, usize>)
        requires
            self.len() <= B,
            ascending(self.keys()),
        ensures
            match place {
                Ok(i) => 0 <= i < self.len() && self.keys()[i as int] == key,
                Err(i) => between(self.keys(), i as int, key) && !self.keys().contains(key),
            },
    {
        let values = self.values();
        let mut index: usize = 0;
        while index < values.len()
            invariant
                index <= values@.len(),
                values@ == self.keys(),
                values@.len() == self.len(),
                ascending(self.keys()),
                forall|j: int| 0 <= j < index ==> (#[trigger] values@[j]).rank() < key.rank(),
            decreases values@.len() - index,
        {
            if key.same(&values[index]) {
                proof {
                    T::rank_is_one_to_one(key, values@[index as int]);
                }
                return Ok(index);
            }
            if key.less(&values[index]) {
                return Err(index);
            }
            index += 1;
        }
        Err(index)
    }

    /// Whether `key` is stored in this subtree.
    pub fn contains(&self, key: T) -> (found: bool)
        requires
            self.wf(),
        ensures
            found == self.holds(key),
        decreases self.height(),
    {
        let ghost h = self.height();
        assert(self.shaped(h));
        match self.insertion_point(key) {
            Ok(i) => {
                assert(self.keys()[i as int] == key);
                true
            },
            Err(ip) => match &self.children {
                None => {
                    assert(self.is_leaf());
                    assert(!self.holds(key));
                    false
                },
                Some(children) => {
                    proof {
                        let kid = self.kids()[ip as int];
                        kid.lemma_height((h - 1) as nat);
                        assert forall|i: int|
                            0 <= i < self.kids().len() && (#[trigger] self.kids()[i]).reaches(
                                key,
                                (h - 1) as nat,
                            ) implies i == ip by {
                            assert(self.lower((h - 1) as nat)[i].contains(key));
                        }
                    }
                    children[ip].as_ref().unwrap().contains(key)
                },
            },
        }
    }

    /// A node built of ordered keys over sound children is sound.
    proof fn lemma_sound(&self, h: nat)
        requires
            self.packed(),
            self.keys().len() == self.len(),
            h == 0 <==> self.is_leaf(),
            forall|i: int|
                0 <= i < self.kids().len() ==> (#[trigger] self.kids()[i]).shaped((h - 1) as nat),
            ordered(self.keys(), sets_of(self.kids(), (h - 1) as nat)),
        ensures
            self.shaped(h),
            self.wf(),
            self.height() == h,
            forall|k: T|
                self.holds(k) <==> gathered(self.keys(), sets_of(self.kids(), (h - 1) as nat)).contains(
                    k,
                ),
    {
        assert(self.shaped(h));
        self.lemma_height(h);
        assert forall|k: T|
            self.holds(k) <==> gathered(self.keys(), sets_of(self.kids(), (h - 1) as nat)).contains(
                k,
            ) by {
            self.lemma_reaches(k, h);
        }
    }

    /// In a sound node only the child in the gap of a key that the node
    /// lacks can hold that key, or split on taking it.
    proof fn lemma_way_down(&self, h: nat, at: int, key: T)
        requires
            self.shaped(h),
            between(self.keys(), at, key),
            !self.keys().contains(key),
        ensures
            h > 0 ==> 0 <= at < self.kids().len(),
            h > 0 ==> (self.reaches(key, h) <==> self.kids()[at].reaches(key, (h - 1) as nat)),
            h > 0 ==> (self.overflows(key, h) <==> self.len() == B && self.kids()[at].overflows(
                key,
                (h - 1) as nat,
            )),
            h == 0 ==> !self.reaches(key, h),
            h == 0 ==> (self.overflows(key, h) <==> self.len() == B),
    {
        let kids = self.kids();
        assert forall|i: int|
            0 <= i < kids.len() && ((#[trigger] kids[i]).reaches(key, (h - 1) as nat) || (between(
                self.keys(),
                i,
                key,
            ) && kids[i].overflows(key, (h - 1) as nat))) implies i == at by {
            if kids[i].reaches(key, (h - 1) as nat) {
                assert(self.lower((h - 1) as nat)[i].contains(key));
            }
            lemma_one_gap(self.keys(), i, at, key);
        }
    }

    /// A node one of whose children took in `key`, without splitting, holds
    /// that key besides what it held, and is as sound as it was.
    proof fn lemma_child_grew(before: Node<T>, now: Node<T>, h: nat, at: int, key: T)
        requires
            before.shaped(h),
            h > 0,
            0 <= at < before.kids().len(),
            between(before.keys(), at, key),
            now.packed(),
            now.is_leaf() == before.is_leaf(),
            now.len() == before.len(),
            now.keys() == before.keys(),
            now.kids() == before.kids().update(at, now.kids()[at]),
            now.kids()[at].wf(),
            now.kids()[at].height() == h - 1,
            forall|k: T| #[trigger]
                now.kids()[at].holds(k) <==> before.kids()[at].holds(k) || k == key,
        ensures
            now.shaped(h),
            now.wf(),
            now.height() == h,
            forall|k: T| now.holds(k) <==> before.reaches(k, h) || k == key,
    {
        let grown = now.kids()[at];
        let kids = before.kids();
        let below = sets_of(kids, (h - 1) as nat);
        let set = Set::new(|k: T| grown.reaches(k, (h - 1) as nat));
        kids[at].lemma_height((h - 1) as nat);
        assert forall|k: T|
            #![trigger set.contains(k)]
            #![trigger below[at].contains(k)]
            set.contains(k) <==> below[at].contains(k) || k == key by {
            assert(grown.holds(k) <==> kids[at].holds(k) || k == key);
        }
        lemma_replace(before.keys(), below, at, key, set);
        assert(sets_of(now.kids(), (h - 1) as nat) =~~= below.update(at, set));
        now.lemma_sound(h);
        assert forall|k: T| now.holds(k) <==> before.reaches(k, h) || k == key by {
            before.lemma_reaches(k, h);
        }
    }

    /// The keys and children that a node would have with `key_up` in gap `at`
    /// and, for an internal node, the child of that gap split into `l` and
    /// `r`: they are ordered, and hold `key` besides what the node held.
    proof fn lemma_widen(
        before: Node<T>,
        h: nat,
        at: int,
        key: T,
        key_up: T,
        l: Node<T>,
        r: Node<T>,
    ) -> (wide: (Seq<T>, Seq<Node<T>>))
        requires
            before.shaped(h),
            between(before.keys(), at, key),
            !before.keys().contains(key),
            h == 0 ==> key_up == key,
            h > 0 ==> {
                &&& l.wf() && l.height() == h - 1
                &&& r.wf() && r.height() == h - 1
                &&& forall|k: T|
                    #![trigger l.holds(k)]
                    #![trigger r.holds(k)]
                    #![trigger before.kids()[at].holds(k)]
                    l.holds(k) || k == key_up || r.holds(k) <==> before.kids()[at].holds(k) || k
                        == key
                &&& forall|k: T| #[trigger] l.holds(k) ==> k.rank() < key_up.rank()
                &&& forall|k: T| #[trigger] r.holds(k) ==> key_up.rank() < k.rank()
            },
        ensures
            wide.0 == before.keys().insert(at, key_up),
            h == 0 ==> wide.1.len() == 0,
            h > 0 ==> wide.1 == before.kids().update(at, l).insert(at + 1, r),
            ordered(wide.0, sets_of(wide.1, (h - 1) as nat)),
            forall|i: int| 0 <= i < wide.1.len() ==> (#[trigger] wide.1[i]).shaped((h - 1) as nat),
            forall|k: T|
                gathered(wide.0, sets_of(wide.1, (h - 1) as nat)).contains(k) <==> before.reaches(
                    k,
                    h,
                ) || k == key,
    {
        let keys = before.keys();
        let kids = before.kids();
        let below = sets_of(kids, (h - 1) as nat);
        let keys2 = keys.insert(at, key_up);
        assert forall|k: T| before.reaches(k, h) <==> gathered(keys, below).contains(k) by {
            before.lemma_reaches(k, h);
        }
        if h == 0 {
            lemma_insert_key(keys, at, key);
            assert(sets_of(kids, (h - 1) as nat).len() == 0);
            (keys2, kids)
        } else {
            before.lemma_way_down(h, at, key);
            let kids2 = kids.update(at, l).insert(at + 1, r);
            let lset = Set::new(|k: T| l.reaches(k, (h - 1) as nat));
            let rset = Set::new(|k: T| r.reaches(k, (h - 1) as nat));
            kids[at].lemma_height((h - 1) as nat);
            assert forall|k: T|
                #![trigger lset.contains(k)]
                #![trigger rset.contains(k)]
                #![trigger below[at].contains(k)]
                lset.contains(k) || k == key_up || rset.contains(k) <==> below[at].contains(k) || k
                    == key by {
                assert(l.holds(k) || k == key_up || r.holds(k) <==> kids[at].holds(k) || k == key);
            }
            assert(below[at].contains(key_up) || key_up == key) by {
                if key_up != key {
                    assert(kids[at].holds(key_up));
                }
            }
            assert forall|k: T| #[trigger] lset.contains(k) implies k.rank() < key_up.rank() by {
                assert(l.holds(k));
            }
            assert forall|k: T| #[trigger] rset.contains(k) implies key_up.rank() < k.rank() by {
                assert(r.holds(k));
            }
            lemma_adopt(keys, below, at, key, key_up, lset, rset);
            assert(sets_of(kids2, (h - 1) as nat) =~~= below.update(at, lset).insert(at + 1, rset));
            (keys2, kids2)
        }
    }

    /// Two nodes that share out the keys and children of an ordered family
    /// around key `cut` are sound, lie to either side of that key, and hold
    /// with it what the family held.
    proof fn lemma_halves(
        now: Node<T>,
        right: Node<T>,
        h: nat,
        keys2: Seq<T>,
        kids2: Seq<Node<T>>,
        cut: int,
    )
        requires
            ordered(keys2, sets_of(kids2, (h - 1) as nat)),
            forall|i: int| 0 <= i < kids2.len() ==> (#[trigger] kids2[i]).shaped((h - 1) as nat),
            0 <= cut < keys2.len(),
            h == 0 ==> kids2.len() == 0 && now.kids().len() == 0 && right.kids().len() == 0,
            h > 0 ==> kids2.len() == keys2.len() + 1 && now.kids() == kids2.take(cut + 1)
                && right.kids() == kids2.skip(cut + 1),
            now.packed(),
            right.packed(),
            now.keys() == keys2.take(cut),
            right.keys() == keys2.skip(cut + 1),
            now.keys().len() == now.len(),
            right.keys().len() == right.len(),
            h == 0 <==> now.is_leaf(),
            h == 0 <==> right.is_leaf(),
        ensures
            now.wf(),
            now.height() == h,
            right.wf(),
            right.height() == h,
            forall|k: T|
                now.holds(k) || k == keys2[cut] || right.holds(k) <==> gathered(
                    keys2,
                    sets_of(kids2, (h - 1) as nat),
                ).contains(k),
            forall|k: T| now.holds(k) ==> k.rank() < keys2[cut].rank(),
            forall|k: T| right.holds(k) ==> keys2[cut].rank() < k.rank(),
    {
        let below2 = sets_of(kids2, (h - 1) as nat);
        let lb = sets_of(now.kids(), (h - 1) as nat);
        let rb = sets_of(right.kids(), (h - 1) as nat);
        if h > 0 {
            assert(lb =~~= below2.take(cut + 1));
            assert(rb =~~= below2.skip(cut + 1));
        }
        lemma_cut(keys2, below2, cut, lb, rb);
        now.lemma_sound(h);
        right.lemma_sound(h);
    }

    /// The default child slot is the empty one.
    proof fn lemma_default_slot(slot: Option<Box<Node<T>>>)
        requires
            is_default(slot),
        ensures
            slot is None,
    {
    }

    /// Makes room at place `at` of a node that is not full and puts `key`
    /// there, with `right` as the child after it.
    fn take_in(&mut self, at: usize, key: T, right: Option<Box<Node<T>>>)
        requires
            old(self).packed(),
            at <= old(self).len() < B,
            right is Some <==> !old(self).is_leaf(),
        ensures
            final(self).packed(),
            final(self).len() == old(self).len() + 1,
            final(self).keys() == old(self).keys().insert(at as int, key),
            final(self).keys().len() == final(self).len(),
            final(self).is_leaf() == old(self).is_leaf(),
            !old(self).is_leaf() ==> final(self).kids() == old(self).kids().insert(
                at + 1,
                *right->0,
            ),
    {
        let ghost before = *self;
        let (_, tail) = self.values.split_at_mut(at);
        shift(tail, key);
        if let Some(right) = right {
            let children = self.children.as_mut().unwrap();
            let (_, tail) = children.split_at_mut(at + 1);
            shift(tail, Some(right));
        }
        self.fill += 1;
        proof {
            assert(self.keys() =~= before.keys().insert(at as int, key));
            if !before.is_leaf() {
                assert(self.kids() =~= before.kids().insert(at + 1, *right->0));
            }
        }
    }

    /// Cuts a full node in two around the median of its keys with `key` at
    /// place `at`, and `right` as the child after it: the node keeps the
    /// lower keys and children, and the new node that is handed back with the
    /// median has the upper ones.
    fn split_off(&mut self, at: usize, key: T, right: Option<Box<Node<T>>>) -> (res: (
        T,
        Node<T>,
    )) where T: Default
        requires
            old(self).packed(),
            old(self).len() == B,
            at <= B,
            right is Some <==> !old(self).is_leaf(),
        ensures
            final(self).packed(),
            res.1.packed(),
            final(self).len() == left_keys(),
            res.1.len() == right_keys(),
            final(self).keys().len() == final(self).len(),
            res.1.keys().len() == res.1.len(),
            final(self).is_leaf() == old(self).is_leaf(),
            res.1.is_leaf() == old(self).is_leaf(),
            res.0 == old(self).keys().insert(at as int, key)[left_keys()],
            final(self).keys() == old(self).keys().insert(at as int, key).take(left_keys()),
            res.1.keys() == old(self).keys().insert(at as int, key).skip(left_keys() + 1),
            !old(self).is_leaf() ==> {
                &&& final(self).kids() == old(self).kids().insert(at + 1, *right->0).take(
                    left_slots(),
                )
                &&& res.1.kids() == old(self).kids().insert(at + 1, *right->0).skip(left_slots())
            },
    {
        let ghost before = *self;
        let ((lvalues, lfill), median, (rvalues, rfill)) = insert_split_spill(
            &self.values,
            at,
            key,
        );
        self.values = lvalues;
        self.fill = lfill;
        let rchildren = if let Some(right) = right {
            let children = self.children.as_mut().unwrap();
            let (lchildren, rchildren) = insert_split(children, at + 1, Some(right));
            *children = lchildren;
            Some(rchildren)
        } else {
            None
        };
        let node = Node { fill: rfill, values: rvalues, children: rchildren };
        proof {
            let keys2 = before.keys().insert(at as int, key);
            assert(before.keys() =~= before.values@);
            assert(self.keys() =~= keys2.take(left_keys()));
            assert(node.keys() =~= keys2.skip(left_keys() + 1));
            if !before.is_leaf() {
                let kids2 = before.kids().insert(at + 1, *right->0);
                let slots = before.children->0@;
                let slots2 = slots.insert(at + 1, right);
                let lslots = self.children->0@;
                let rslots = node.children->0@;
                assert(lslots.take(left_slots()) == slots2.take(left_slots()));
                assert(rslots.take(right_slots()) == slots2.skip(left_slots()));
                assert forall|i: int| 0 <= i < SLOTS implies ((#[trigger] lslots[i]) is Some <==> i
                    <= self.fill) by {
                    if i < left_slots() {
                        assert(lslots[i] == lslots.take(left_slots())[i]);
                    } else {
                        Self::lemma_default_slot(lslots[i]);
                    }
                }
                assert forall|i: int| 0 <= i < SLOTS implies ((#[trigger] rslots[i]) is Some <==> i
                    <= node.fill) by {
                    if i < right_slots() {
                        assert(rslots[i] == rslots.take(right_slots())[i]);
                    } else {
                        Self::lemma_default_slot(rslots[i]);
                    }
                }
                assert forall|i: int| 0 <= i < left_slots() implies self.kids()[i] == kids2.take(
                    left_slots(),
                )[i] by {
                    assert(lslots[i] == lslots.take(left_slots())[i]);
                }
                assert forall|i: int| 0 <= i < right_slots() implies node.kids()[i] == kids2.skip(
                    left_slots(),
                )[i] by {
                    assert(rslots[i] == rslots.take(right_slots())[i]);
                }
                assert(self.kids() =~= kids2.take(left_slots()));
                assert(node.kids() =~= kids2.skip(left_slots()));
            }
        }
        (median, node)
    }

    /// Puts `key` into this subtree. A node that has room takes it in; a full
    /// node splits, keeps its lower keys and hands back its median with a new
    /// right sibling that holds its upper keys.
    pub fn insert(&mut self, key: T) -> (split: Option<(T, Node<T>)>) where T: Default
        requires
            old(self).wf(),
        ensures
            final(self).wf(),
            final(self).height() == old(self).height(),
            split is Some <==> old(self).splits_on(key),
            split is Some ==> !old(self).holds(key),
            old(self).holds(key) ==> *final(self) == *old(self),
            match split {
                None => forall|k: T|
                    #![trigger final(self).holds(k)]
                    #![trigger old(self).holds(k)]
                    final(self).holds(k) <==> old(self).holds(k) || k == key,
                Some((median, right)) => {
                    &&& right.wf()
                    &&& right.height() == old(self).height()
                    &&& final(self).len() == left_keys()
                    &&& right.len() == right_keys()
                    &&& forall|k: T|
                        #![trigger final(self).holds(k)]
                        #![trigger right.holds(k)]
                        #![trigger old(self).holds(k)]
                        final(self).holds(k) || k == median || right.holds(k) <==> old(self).holds(
                            k,
                        ) || k == key
                    &&& forall|k: T| #[trigger] final(self).holds(k) ==> k.rank() < median.rank()
                    &&& forall|k: T| #[trigger] right.holds(k) ==> median.rank() < k.rank()
                },
            },
            !old(self).holds(key) ==> match split {
                None => old(self).took_in(
                    key,
                    final(self).keys(),
                    final(self).kids(),
                    old(self).height(),
                ),
                Some((median, right)) => old(self).took_in(
                    key,
                    final(self).keys().push(median) + right.keys(),
                    final(self).kids() + right.kids(),
                    old(self).height(),
                ),
            },
        decreases old(self).height(),
    {
        let ghost h = self.height();
        let ghost before = *self;
        let ghost keys = before.keys();
        let ghost kids = before.kids();
        assert(before.shaped(h));
        let insertion_point = match self.insertion_point(key) {
            Ok(i) => {
                assert(keys[i as int] == key);
                return None;
            },
            Err(i) => i,
        };
        let ghost at = insertion_point as int;
        proof {
            before.lemma_way_down(h, at, key);
            if h > 0 {
                kids[at].lemma_height((h - 1) as nat);
            }
        }
        let ghost mut l = before;
        let (key_up, right): (T, Option<Box<Node<T>>>) = match &mut self.children {
            Some(children) => {
                let child = children[insertion_point].as_mut().unwrap();
                match child.insert(key) {
                    None => {
                        proof {
                            let now = *self;
                            assert(now.keys() == keys);
                            assert(now.kids() =~= kids.update(at, now.kids()[at]));
                            Self::lemma_child_grew(before, now, h, at, key);
                            if !before.holds(key) {
                                assert(between(keys, at, key));
                                assert(before.took_in(key, now.keys(), now.kids(), h));
                            }
                            if before.holds(key) {
                                assert(now.kids()[at] == kids[at]);
                                assert(now.children->0@ =~= before.children->0@);
                                assert(now.children->0 == before.children->0);
                            }
                        }
                        return None;
                    },
                    Some((median, node)) => {
                        proof {
                            l = **child;
                        }
                        (median, Some(Box::new(node)))
                    },
                }
            },
            None => (key, None),
        };
        let ghost middle = *self;
        proof {
            assert(right is Some <==> h > 0);
            assert(middle.keys() == keys);
            if h > 0 {
                assert(middle.kids()[at] == l);
                assert(middle.kids() =~= kids.update(at, l));
            } else {
                assert(middle == before);
            }
        }
        let ghost wide = Self::lemma_widen(before, h, at, key, key_up, l, *right->0);
        proof {
            assert(between(keys, at, key));
            if h > 0 {
                l.lemma_invariants();
                assert(wide.0[at] == key_up);
                assert(wide.1[at] == l);
                assert(wide.1[at + 1] == *right->0);
            }
            assert(before.took_in(key, wide.0, wide.1, h));
        }
        if !self.is_full() {
            self.take_in(insertion_point, key_up, right);
            proof {
                self.lemma_sound(h);
                if h > 0 {
                    assert(self.kids() =~= wide.1);
                }
            }
            return None;
        }
        let (median, node) = self.split_off(insertion_point, key_up, right);
        proof {
            Self::lemma_halves(*self, node, h, wide.0, wide.1, left_keys());
            let all_keys = self.keys().push(median) + node.keys();
            let all_kids = self.kids() + node.kids();
            assert(all_keys =~= wide.0);
            assert(all_kids =~= wide.1);
        }
        Some((median, node))
    }
}

} // verus!
