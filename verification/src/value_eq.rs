//! Equality on bag values.
//!
//! The multi-value store removes values by equality, not by order. A value
//! type supplies a specification-level equality relation and an executable
//! comparison that agrees with it.
use vstd::prelude::*;

verus! {

/// A value type with a decidable equality used to find values in a bag.
pub trait ValueEq: Sized {
    /// Specification-level equality.
    spec fn veq(self, other: Self) -> bool;

    /// Executable equality agreeing with `veq`.
    fn value_eq(&self, other: &Self) -> (r: bool)
        ensures
            r == self.veq(*other),
    ;
}

impl ValueEq for i32 {
    open spec fn veq(self, other: Self) -> bool {
        self == other
    }

    fn value_eq(&self, other: &Self) -> (r: bool) {
        *self == *other
    }
}

impl ValueEq for i64 {
    open spec fn veq(self, other: Self) -> bool {
        self == other
    }

    fn value_eq(&self, other: &Self) -> (r: bool) {
        *self == *other
    }
}

impl ValueEq for u32 {
    open spec fn veq(self, other: Self) -> bool {
        self == other
    }

    fn value_eq(&self, other: &Self) -> (r: bool) {
        *self == *other
    }
}

impl ValueEq for u64 {
    open spec fn veq(self, other: Self) -> bool {
        self == other
    }

    fn value_eq(&self, other: &Self) -> (r: bool) {
        *self == *other
    }
}

impl ValueEq for usize {
    open spec fn veq(self, other: Self) -> bool {
        self == other
    }

    fn value_eq(&self, other: &Self) -> (r: bool) {
        *self == *other
    }
}

impl ValueEq for String {
    open spec fn veq(self, other: Self) -> bool {
        self@ == other@
    }

    fn value_eq(&self, other: &Self) -> (r: bool) {
        *self == *other
    }
}

} // verus!
