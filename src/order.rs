//! Strict total orders on element types, with an executable three-way comparison.

use vstd::prelude::*;

verus! {

use std::cmp::Ordering;

/// A type whose values are strictly and totally ordered by `less_than`,
/// and which can be compared at run time consistently with that order.
pub trait TotalOrder: Sized {
    /// `self` comes strictly before `other`.
    spec fn less_than(self, other: Self) -> bool;

    proof fn irreflexive(x: Self)
        ensures
            !x.less_than(x),
    ;

    proof fn transitive(x: Self, y: Self, z: Self)
        requires
            x.less_than(y),
            y.less_than(z),
        ensures
            x.less_than(z),
    ;

    proof fn connected(x: Self, y: Self)
        ensures
            x == y || x.less_than(y) || y.less_than(x),
    ;

    fn compare(&self, other: &Self) -> (c: Ordering)
        ensures
            (c == Ordering::Less) == self.less_than(*other),
            (c == Ordering::Equal) == (*self == *other),
            (c == Ordering::Greater) == other.less_than(*self),
    ;
}

impl TotalOrder for i32 {
    open spec fn less_than(self, other: Self) -> bool {
        self < other
    }

    proof fn irreflexive(x: Self) {
    }

    proof fn transitive(x: Self, y: Self, z: Self) {
    }

    proof fn connected(x: Self, y: Self) {
    }

    fn compare(&self, other: &Self) -> (c: Ordering) {
        if *self < *other {
            Ordering::Less
        } else if *self == *other {
            Ordering::Equal
        } else {
            Ordering::Greater
        }
    }
}

impl TotalOrder for i64 {
    open spec fn less_than(self, other: Self) -> bool {
        self < other
    }

    proof fn irreflexive(x: Self) {
    }

    proof fn transitive(x: Self, y: Self, z: Self) {
    }

    proof fn connected(x: Self, y: Self) {
    }

    fn compare(&self, other: &Self) -> (c: Ordering) {
        if *self < *other {
            Ordering::Less
        } else if *self == *other {
            Ordering::Equal
        } else {
            Ordering::Greater
        }
    }
}

impl TotalOrder for u64 {
    open spec fn less_than(self, other: Self) -> bool {
        self < other
    }

    proof fn irreflexive(x: Self) {
    }

    proof fn transitive(x: Self, y: Self, z: Self) {
    }

    proof fn connected(x: Self, y: Self) {
    }

    fn compare(&self, other: &Self) -> (c: Ordering) {
        if *self < *other {
            Ordering::Less
        } else if *self == *other {
            Ordering::Equal
        } else {
            Ordering::Greater
        }
    }
}

} // verus!

verus! {

/// A strict order is asymmetric: no two values come each before the other.
pub proof fn lemma_asymmetric<T: TotalOrder>(x: T, y: T)
    requires
        x.less_than(y),
    ensures
        !y.less_than(x),
{
    if y.less_than(x) {
        T::transitive(x, y, x);
        T::irreflexive(x);
    }
}

} // verus!
