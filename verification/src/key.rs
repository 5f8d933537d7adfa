//! What the indexes ask of a key: a place on the integer line.

use vstd::prelude::*;

verus! {

/// Every rank lies strictly above this bound.
pub open spec fn rank_floor() -> int {
    -0x8000_0000_0000_0000_0000_0000_0000_0001int
}

/// Every rank lies strictly below this bound.
pub open spec fn rank_ceiling() -> int {
    0x1_0000_0000_0000_0000_0000_0000_0000_0000int
}

/// A key type whose values are ordered by an integer rank. Distinct keys have
/// distinct ranks, so the order is total and equal ranks mean equal keys.
pub trait Key: Copy {
    /// The place of the key on the integer line.
    spec fn rank(&self) -> int;

    /// Keys with the same rank are the same key.
    proof fn rank_is_one_to_one(a: Self, b: Self)
        requires
            a.rank() == b.rank(),
        ensures
            a == b,
    ;

    /// Ranks stay within fixed bounds.
    proof fn rank_is_bounded(a: Self)
        ensures
            rank_floor() < a.rank() < rank_ceiling(),
    ;

    /// Whether `self` comes strictly before `other`.
    fn less(&self, other: &Self) -> (r: bool)
        ensures
            r == (self.rank() < other.rank()),
    ;

    /// Whether `self` and `other` are the same key.
    fn same(&self, other: &Self) -> (r: bool)
        ensures
            r == (self.rank() == other.rank()),
    ;
}

impl Key for u8 {
    open spec fn rank(&self) -> int {
        *self as int
    }

    proof fn rank_is_one_to_one(a: Self, b: Self) {
    }

    proof fn rank_is_bounded(a: Self) {
    }

    fn less(&self, other: &Self) -> (r: bool) {
        *self < *other
    }

    fn same(&self, other: &Self) -> (r: bool) {
        *self == *other
    }
}

impl Key for u16 {
    open spec fn rank(&self) -> int {
        *self as int
    }

    proof fn rank_is_one_to_one(a: Self, b: Self) {
    }

    proof fn rank_is_bounded(a: Self) {
    }

    fn less(&self, other: &Self) -> (r: bool) {
        *self < *other
    }

    fn same(&self, other: &Self) -> (r: bool) {
        *self == *other
    }
}

impl Key for u32 {
    open spec fn rank(&self) -> int {
        *self as int
    }

    proof fn rank_is_one_to_one(a: Self, b: Self) {
    }

    proof fn rank_is_bounded(a: Self) {
    }

    fn less(&self, other: &Self) -> (r: bool) {
        *self < *other
    }

    fn same(&self, other: &Self) -> (r: bool) {
        *self == *other
    }
}

impl Key for u64 {
    open spec fn rank(&self) -> int {
        *self as int
    }

    proof fn rank_is_one_to_one(a: Self, b: Self) {
    }

    proof fn rank_is_bounded(a: Self) {
    }

    fn less(&self, other: &Self) -> (r: bool) {
        *self < *other
    }

    fn same(&self, other: &Self) -> (r: bool) {
        *self == *other
    }
}

impl Key for u128 {
    open spec fn rank(&self) -> int {
        *self as int
    }

    proof fn rank_is_one_to_one(a: Self, b: Self) {
    }

    proof fn rank_is_bounded(a: Self) {
    }

    fn less(&self, other: &Self) -> (r: bool) {
        *self < *other
    }

    fn same(&self, other: &Self) -> (r: bool) {
        *self == *other
    }
}

impl Key for usize {
    open spec fn rank(&self) -> int {
        *self as int
    }

    proof fn rank_is_one_to_one(a: Self, b: Self) {
    }

    proof fn rank_is_bounded(a: Self) {
    }

    fn less(&self, other: &Self) -> (r: bool) {
        *self < *other
    }

    fn same(&self, other: &Self) -> (r: bool) {
        *self == *other
    }
}

impl Key for i8 {
    open spec fn rank(&self) -> int {
        *self as int
    }

    proof fn rank_is_one_to_one(a: Self, b: Self) {
    }

    proof fn rank_is_bounded(a: Self) {
    }

    fn less(&self, other: &Self) -> (r: bool) {
        *self < *other
    }

    fn same(&self, other: &Self) -> (r: bool) {
        *self == *other
    }
}

impl Key for i16 {
    open spec fn rank(&self) -> int {
        *self as int
    }

    proof fn rank_is_one_to_one(a: Self, b: Self) {
    }

    proof fn rank_is_bounded(a: Self) {
    }

    fn less(&self, other: &Self) -> (r: bool) {
        *self < *other
    }

    fn same(&self, other: &Self) -> (r: bool) {
        *self == *other
    }
}

impl Key for i32 {
    open spec fn rank(&self) -> int {
        *self as int
    }

    proof fn rank_is_one_to_one(a: Self, b: Self) {
    }

    proof fn rank_is_bounded(a: Self) {
    }

    fn less(&self, other: &Self) -> (r: bool) {
        *self < *other
    }

    fn same(&self, other: &Self) -> (r: bool) {
        *self == *other
    }
}

impl Key for i64 {
    open spec fn rank(&self) -> int {
        *self as int
    }

    proof fn rank_is_one_to_one(a: Self, b: Self) {
    }

    proof fn rank_is_bounded(a: Self) {
    }

    fn less(&self, other: &Self) -> (r: bool) {
        *self < *other
    }

    fn same(&self, other: &Self) -> (r: bool) {
        *self == *other
    }
}

impl Key for i128 {
    open spec fn rank(&self) -> int {
        *self as int
    }

    proof fn rank_is_one_to_one(a: Self, b: Self) {
    }

    proof fn rank_is_bounded(a: Self) {
    }

    fn less(&self, other: &Self) -> (r: bool) {
        *self < *other
    }

    fn same(&self, other: &Self) -> (r: bool) {
        *self == *other
    }
}

impl Key for isize {
    open spec fn rank(&self) -> int {
        *self as int
    }

    proof fn rank_is_one_to_one(a: Self, b: Self) {
    }

    proof fn rank_is_bounded(a: Self) {
    }

    fn less(&self, other: &Self) -> (r: bool) {
        *self < *other
    }

    fn same(&self, other: &Self) -> (r: bool) {
        *self == *other
    }
}

/// Whether the ranks of `keys` rise strictly from left to right.
pub open spec fn ascending<T: Key>(keys: Seq<T>) -> bool {
    forall|i: int, j: int|
        0 <= i < j < keys.len() ==> #[trigger] keys[i].rank() < #[trigger] keys[j].rank()
}

/// Whether `key` belongs in gap `i` of the ascending `keys`: above the key
/// before the gap and below the key after it.
pub open spec fn between<T: Key>(keys: Seq<T>, i: int, key: T) -> bool {
    &&& 0 <= i <= keys.len()
    &&& i > 0 ==> keys[i - 1].rank() < key.rank()
    &&& i < keys.len() ==> key.rank() < keys[i].rank()
}

} // verus!
