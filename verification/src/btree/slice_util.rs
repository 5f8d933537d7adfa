//! Moving keys and child slots between the fixed-size arrays of a node.

use vstd::prelude::*;
use crate::btree::{B, SLOTS};

verus! {

/// Holds of the values that `T::default()` may return.
pub open spec fn is_default<T: Default>(x: T) -> bool {
    call_ensures(T::default, (), x)
}

/// Pushes `value` in at the front of `slice`; every element moves one place
/// to the right and the last one falls out.
pub fn shift<T>(slice: &mut [T], value: T)
    ensures
        final(slice)@ == (seq![value] + old(slice)@).take(old(slice)@.len() as int),
{
    let ghost before = slice@;
    let mut tmp = value;
    let n: usize = slice.len();
    let mut i: usize = 0;
    while i < n
        invariant
            i <= n,
            n == before.len(),
            slice@.len() == n,
            tmp == (seq![value] + before)[i as int],
            forall|j: int| 0 <= j < i ==> slice@[j] == (seq![value] + before)[j],
            forall|j: int| i <= j < n ==> slice@[j] == before[j],
        decreases n - i,
    {
        core::mem::swap(&mut tmp, &mut slice[i]);
        i += 1;
    }
}

/// Number of keys that stay in the left node when a full node splits.
pub open spec fn left_keys() -> int {
    (B + 1) / 2
}

/// Number of keys that move to the new right node when a full node splits.
pub open spec fn right_keys() -> int {
    B - left_keys()
}

/// Puts `key` at `insertion_point` among the keys of a full node and cuts the
/// result in three: the keys that stay, the median that moves up, and the
/// keys of the new right sibling. Unused places hold default values.
pub fn insert_split_spill<T: Default + Copy>(xs: &[T; B], insertion_point: usize, key: T) -> (res: (
    ([T; B], u8),
    T,
    ([T; B], u8),
))
    requires
        insertion_point <= B,
    ensures
        res.0.1 == left_keys(),
        res.2.1 == right_keys(),
        res.0.0@.take(left_keys()) == xs@.insert(insertion_point as int, key).take(left_keys()),
        res.1 == xs@.insert(insertion_point as int, key)[left_keys()],
        res.2.0@.take(right_keys()) == xs@.insert(insertion_point as int, key).skip(
            left_keys() + 1,
        ),
        forall|i: int| left_keys() <= i < B ==> is_default(#[trigger] res.0.0@[i]),
        forall|i: int| right_keys() <= i < B ==> is_default(#[trigger] res.2.0@[i]),
{
    let ghost all = xs@.insert(insertion_point as int, key);
    let filler = T::default();
    let mut left: [T; B] = [filler; B];
    let mut mid: T = filler;
    let mut right: [T; B] = [filler; B];
    let left_fill: usize = (B + 1) / 2;
    let right_fill: usize = (B + 1) - left_fill - 1;
    let mut dst: usize = 0;
    while dst < B + 1
        invariant
            dst <= B + 1,
            insertion_point <= B,
            left_fill == left_keys(),
            right_fill == right_keys(),
            all == xs@.insert(insertion_point as int, key),
            is_default(filler),
            forall|i: int| 0 <= i < left_fill && i < dst ==> left@[i] == all[i],
            forall|i: int| left_fill <= i < B ==> left@[i] == filler,
            dst > left_fill ==> mid == all[left_fill as int],
            forall|i: int| 0 <= i < right_fill && left_fill + 1 + i < dst ==> right@[i] == all[left_fill + 1 + i],
            forall|i: int| right_fill <= i < B ==> right@[i] == filler,
        decreases B + 1 - dst,
    {
        let src: T = if dst < insertion_point {
            xs[dst]
        } else if dst == insertion_point {
            key
        } else {
            xs[dst - 1]
        };
        if dst < left_fill {
            left[dst] = src;
        } else if dst == left_fill {
            mid = src;
        } else {
            right[dst - left_fill - 1] = src;
        }
        dst += 1;
    }
    ((left, left_fill as u8), mid, (right, right_fill as u8))
}

/// Number of child slots that stay in the left node when a full node splits.
pub open spec fn left_slots() -> int {
    (B + 2) / 2
}

/// Number of child slots that move to the new right node when a full node splits.
pub open spec fn right_slots() -> int {
    (B + 2) - left_slots()
}

/// Puts `key` at `insertion_point` among the items of a full array and cuts
/// the result in two halves. The items are moved out of `xs`, which is left
/// holding default values, as are the unused places of both halves.
pub fn insert_split<T: Default>(xs: &mut [T; SLOTS], insertion_point: usize, key: T) -> (res: (
    [T; SLOTS],
    [T; SLOTS],
))
    requires
        insertion_point <= SLOTS,
    ensures
        res.0@.take(left_slots()) == old(xs)@.insert(insertion_point as int, key).take(
            left_slots(),
        ),
        res.1@.take(right_slots()) == old(xs)@.insert(insertion_point as int, key).skip(
            left_slots(),
        ),
        forall|i: int| left_slots() <= i < SLOTS ==> is_default(#[trigger] res.0@[i]),
        forall|i: int| right_slots() <= i < SLOTS ==> is_default(#[trigger] res.1@[i]),
        forall|i: int| 0 <= i < SLOTS ==> is_default(#[trigger] final(xs)@[i]),
{
    let ghost before = xs@;
    let ghost all = xs@.insert(insertion_point as int, key);
    let mut left: [T; SLOTS] = [
        T::default(),
        T::default(),
        T::default(),
        T::default(),
        T::default(),
        T::default(),
        T::default(),
    ];
    let mut right: [T; SLOTS] = [
        T::default(),
        T::default(),
        T::default(),
        T::default(),
        T::default(),
        T::default(),
        T::default(),
    ];
    let left_fill: usize = (B + 2) / 2;
    let mut incoming: Option<T> = Some(key);
    let mut dst: usize = 0;
    while dst < SLOTS + 1
        invariant
            dst <= SLOTS + 1,
            insertion_point <= SLOTS,
            left_fill == left_slots(),
            all == before.insert(insertion_point as int, key),
            before.len() == SLOTS,
            incoming == (if dst <= insertion_point { Some(key) } else { None::<T> }),
            forall|i: int| 0 <= i < SLOTS && (if i < insertion_point { i } else { i + 1 }) < dst ==> is_default(#[trigger] xs@[i]),
            forall|i: int| 0 <= i < SLOTS && (if i < insertion_point { i } else { i + 1 }) >= dst ==> #[trigger] xs@[i] == before[i],
            forall|i: int| 0 <= i < left_fill && i < dst ==> left@[i] == all[i],
            forall|i: int| left_fill <= i < SLOTS ==> is_default(#[trigger] left@[i]),
            forall|i: int| 0 <= i < right_slots() && left_fill + i < dst ==> right@[i] == all[left_fill + i],
            forall|i: int| right_slots() <= i < SLOTS ==> is_default(#[trigger] right@[i]),
        decreases SLOTS + 1 - dst,
    {
        let mut src: T = T::default();
        if dst == insertion_point {
            let mut taken: Option<T> = None;
            core::mem::swap(&mut taken, &mut incoming);
            src = taken.unwrap();
        } else if dst < insertion_point {
            core::mem::swap(&mut src, &mut xs[dst]);
        } else {
            core::mem::swap(&mut src, &mut xs[dst - 1]);
        }
        if dst < left_fill {
            left[dst] = src;
        } else {
            right[dst - left_fill] = src;
        }
        dst += 1;
    }
    (left, right)
}

} // verus!
