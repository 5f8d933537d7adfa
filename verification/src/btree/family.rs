//! Keys of a node and the key sets below its children, as plain sequences:
//! what inserting a key and cutting a node in two does to them.

use vstd::prelude::*;
use crate::key::{Key, ascending, between};

verus! {

/// Whether `keys` rise strictly and every key of `below[i]` belongs in gap
/// `i` of `keys`.
pub open spec fn ordered<T: Key>(keys: Seq<T>, below: Seq<Set<T>>) -> bool {
    &&& ascending(keys)
    &&& forall|i: int, key: T|
        0 <= i < below.len() && #[trigger] below[i].contains(key) ==> between(keys, i, key)
}

/// The keys of a node together with all keys below its children.
pub open spec fn gathered<T: Key>(keys: Seq<T>, below: Seq<Set<T>>) -> Set<T> {
    Set::new(
        |key: T|
            keys.contains(key) || exists|i: int|
                0 <= i < below.len() && #[trigger] below[i].contains(key),
    )
}

/// An ascending sequence has one gap only in which a key that it lacks belongs.
pub(crate) proof fn lemma_one_gap<T: Key>(keys: Seq<T>, i: int, j: int, key: T)
    requires
        ascending(keys),
        between(keys, i, key),
        between(keys, j, key),
    ensures
        i == j,
{
    if i < j {
        assert(keys[i].rank() <= keys[j - 1].rank());
    }
    if j < i {
        assert(keys[j].rank() <= keys[i - 1].rank());
    }
}

/// Putting a key into its gap keeps the keys ascending and adds that key only.
pub(crate) proof fn lemma_insert_key<T: Key>(keys: Seq<T>, i: int, key: T)
    requires
        ascending(keys),
        between(keys, i, key),
    ensures
        ascending(keys.insert(i, key)),
        forall|k: T| keys.insert(i, key).contains(k) <==> keys.contains(k) || k == key,
{
    let after = keys.insert(i, key);
    assert forall|a: int, b: int| 0 <= a < b < after.len() implies #[trigger] after[a].rank()
        < #[trigger] after[b].rank() by {
        if a < i && b > i {
            assert(keys[a].rank() <= keys[i - 1].rank());
            assert(keys[i].rank() <= keys[b - 1].rank());
        } else if a < i && b == i {
            assert(keys[a].rank() <= keys[i - 1].rank());
        } else if a == i {
            assert(keys[i].rank() <= keys[b - 1].rank());
        }
    }
    assert forall|k: T| after.contains(k) <==> keys.contains(k) || k == key by {
        if after.contains(k) {
            let a = choose|a: int| 0 <= a < after.len() && after[a] == k;
            if a < i {
                assert(keys[a] == k);
            } else if a > i {
                assert(keys[a - 1] == k);
            }
        }
        if keys.contains(k) {
            let a = choose|a: int| 0 <= a < keys.len() && keys[a] == k;
            if a < i {
                assert(after[a] == k);
            } else {
                assert(after[a + 1] == k);
            }
        }
        if k == key {
            assert(after[i] == k);
        }
    }
}

/// A child that took in `key`, which belongs in its gap, leaves the family
/// ordered and adds that key only.
pub(crate) proof fn lemma_replace<T: Key>(keys: Seq<T>, below: Seq<Set<T>>, at: int, key: T, grown: Set<T>)
    requires
        ordered(keys, below),
        0 <= at < below.len(),
        between(keys, at, key),
        forall|k: T|
            #![trigger grown.contains(k)]
            #![trigger below[at].contains(k)]
            grown.contains(k) <==> below[at].contains(k) || k == key,
    ensures
        ordered(keys, below.update(at, grown)),
        forall|k: T|
            gathered(keys, below.update(at, grown)).contains(k) <==> gathered(keys, below).contains(k)
                || k == key,
{
    let after = below.update(at, grown);
    assert forall|i: int, k: T| 0 <= i < after.len() && #[trigger] after[i].contains(k) implies between(
        keys,
        i,
        k,
    ) by {
        if i != at {
            assert(below[i].contains(k));
        } else if k != key {
            assert(below[i].contains(k));
        }
    }
    assert forall|k: T|
        gathered(keys, after).contains(k) <==> gathered(keys, below).contains(k) || k == key by {
        if gathered(keys, after).contains(k) && !keys.contains(k) {
            let i = choose|i: int| 0 <= i < after.len() && #[trigger] after[i].contains(k);
            if i != at {
                assert(below[i].contains(k));
            } else if k != key {
                assert(below[at].contains(k));
            }
        }
        if gathered(keys, below).contains(k) && !keys.contains(k) {
            let i = choose|i: int| 0 <= i < below.len() && #[trigger] below[i].contains(k);
            if i != at {
                assert(after[i].contains(k));
            } else {
                assert(after[at].contains(k));
            }
        }
        if k == key {
            assert(after[at].contains(k));
        }
    }
}

/// A child that split in two around `median` while taking in `key` leaves the
/// family ordered, with one key and one child more, and adds `key` only.
pub(crate) proof fn lemma_adopt<T: Key>(
    keys: Seq<T>,
    below: Seq<Set<T>>,
    at: int,
    key: T,
    median: T,
    left: Set<T>,
    right: Set<T>,
)
    requires
        ordered(keys, below),
        below.len() == keys.len() + 1,
        0 <= at < below.len(),
        between(keys, at, key),
        forall|k: T|
            #![trigger left.contains(k)]
            #![trigger right.contains(k)]
            #![trigger below[at].contains(k)]
            left.contains(k) || k == median || right.contains(k) <==> below[at].contains(k) || k
                == key,
        below[at].contains(median) || median == key,
        forall|k: T| #[trigger] left.contains(k) ==> k.rank() < median.rank(),
        forall|k: T| #[trigger] right.contains(k) ==> median.rank() < k.rank(),
    ensures
        between(keys, at, median),
        ordered(keys.insert(at, median), below.update(at, left).insert(at + 1, right)),
        forall|k: T|
            gathered(keys.insert(at, median), below.update(at, left).insert(at + 1, right)).contains(
                k,
            ) <==> gathered(keys, below).contains(k) || k == key,
{
    let keys2 = keys.insert(at, median);
    let below2 = below.update(at, left).insert(at + 1, right);
    assert(between(keys, at, median)) by {
        if median != key {
            assert(below[at].contains(median));
        }
    }
    lemma_insert_key(keys, at, median);
    assert forall|i: int, k: T| 0 <= i < below2.len() && #[trigger] below2[i].contains(k) implies between(
        keys2,
        i,
        k,
    ) by {
        if i < at {
            assert(below[i].contains(k));
        } else if i == at {
            assert(left.contains(k));
            if k != key {
                assert(below[at].contains(k));
            }
        } else if i == at + 1 {
            assert(right.contains(k));
            if k != key {
                assert(below[at].contains(k));
            }
        } else {
            assert(below[i - 1].contains(k));
        }
    }
    assert forall|k: T|
        gathered(keys2, below2).contains(k) <==> gathered(keys, below).contains(k) || k == key by {
        if gathered(keys2, below2).contains(k) && !keys2.contains(k) {
            let i = choose|i: int| 0 <= i < below2.len() && #[trigger] below2[i].contains(k);
            if i < at {
                assert(below[i].contains(k));
            } else if i == at {
                assert(left.contains(k));
                if k != key {
                    assert(below[at].contains(k));
                }
            } else if i == at + 1 {
                assert(right.contains(k));
                if k != key {
                    assert(below[at].contains(k));
                }
            } else {
                assert(below[i - 1].contains(k));
            }
        }
        if keys2.contains(k) && k == median && k != key {
            assert(below[at].contains(k));
        }
        if gathered(keys, below).contains(k) && !keys.contains(k) {
            let i = choose|i: int| 0 <= i < below.len() && #[trigger] below[i].contains(k);
            if i < at {
                assert(below2[i].contains(k));
            } else if i > at {
                assert(below2[i + 1].contains(k));
            } else if left.contains(k) {
                assert(below2[at].contains(k));
            } else if right.contains(k) {
                assert(below2[at + 1].contains(k));
            }
        }
        if k == key {
            if left.contains(k) {
                assert(below2[at].contains(k));
            } else if right.contains(k) {
                assert(below2[at + 1].contains(k));
            }
        }
    }
}

/// Cutting an ordered family at key `cut` gives two ordered families, one
/// wholly below that key and one wholly above it, which with that key hold
/// what the family held.
pub(crate) proof fn lemma_cut<T: Key>(
    keys: Seq<T>,
    below: Seq<Set<T>>,
    cut: int,
    left_below: Seq<Set<T>>,
    right_below: Seq<Set<T>>,
)
    requires
        ordered(keys, below),
        0 <= cut < keys.len(),
        below.len() == 0 || below.len() == keys.len() + 1,
        below.len() == 0 ==> left_below.len() == 0 && right_below.len() == 0,
        below.len() > 0 ==> left_below == below.take(cut + 1) && right_below == below.skip(cut + 1),
    ensures
        ordered(keys.take(cut), left_below),
        ordered(keys.skip(cut + 1), right_below),
        forall|k: T|
            gathered(keys, below).contains(k) <==> gathered(keys.take(cut), left_below).contains(k)
                || k == keys[cut] || gathered(keys.skip(cut + 1), right_below).contains(k),
        forall|k: T| #[trigger]
            gathered(keys.take(cut), left_below).contains(k) ==> k.rank() < keys[cut].rank(),
        forall|k: T| #[trigger]
            gathered(keys.skip(cut + 1), right_below).contains(k) ==> keys[cut].rank() < k.rank(),
{
    let lk = keys.take(cut);
    let rk = keys.skip(cut + 1);
    assert forall|i: int, k: T|
        0 <= i < left_below.len() && #[trigger] left_below[i].contains(k) implies between(lk, i, k) by {
        assert(below[i].contains(k));
    }
    assert forall|i: int, k: T|
        0 <= i < right_below.len() && #[trigger] right_below[i].contains(k) implies between(
        rk,
        i,
        k,
    ) by {
        assert(below[i + cut + 1].contains(k));
    }
    assert forall|k: T| #[trigger]
        gathered(lk, left_below).contains(k) implies k.rank() < keys[cut].rank() && gathered(
        keys,
        below,
    ).contains(k) by {
        if lk.contains(k) {
            let a = choose|a: int| 0 <= a < lk.len() && lk[a] == k;
            assert(keys[a] == k);
        } else {
            let i = choose|i: int| 0 <= i < left_below.len() && #[trigger] left_below[i].contains(k);
            assert(below[i].contains(k));
            assert(between(keys, i, k));
            assert(keys[i].rank() <= keys[cut].rank());
        }
    }
    assert forall|k: T| #[trigger]
        gathered(rk, right_below).contains(k) implies keys[cut].rank() < k.rank() && gathered(
        keys,
        below,
    ).contains(k) by {
        if rk.contains(k) {
            let a = choose|a: int| 0 <= a < rk.len() && rk[a] == k;
            assert(keys[a + cut + 1] == k);
        } else {
            let i = choose|i: int|
                0 <= i < right_below.len() && #[trigger] right_below[i].contains(k);
            assert(below[i + cut + 1].contains(k));
            assert(between(keys, i + cut + 1, k));
            assert(keys[cut].rank() <= keys[i + cut].rank());
        }
    }
    assert forall|k: T| gathered(keys, below).contains(k) implies gathered(lk, left_below).contains(k)
        || k == keys[cut] || gathered(rk, right_below).contains(k) by {
        if keys.contains(k) {
            let a = choose|a: int| 0 <= a < keys.len() && keys[a] == k;
            if a < cut {
                assert(lk[a] == k);
            } else if a > cut {
                assert(rk[a - cut - 1] == k);
            }
        } else {
            let i = choose|i: int| 0 <= i < below.len() && #[trigger] below[i].contains(k);
            if i <= cut {
                assert(left_below[i].contains(k));
            } else {
                assert(right_below[i - cut - 1].contains(k));
            }
        }
    }
    assert(keys.contains(keys[cut]));
}

} // verus!
