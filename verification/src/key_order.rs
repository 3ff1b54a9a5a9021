//! A total order on store keys.
//!
//! The sorted containers of this crate are generic over their key type. A key
//! type supplies a specification-level ordering relation, proofs that the
//! relation is a total order, and an executable three-way comparison that
//! agrees with it.
use vstd::prelude::*;

verus! {

use core::cmp::Ordering;

/// A copyable key type with a total order.
///
/// `key_le` is the specification-level "less than or equal" relation; the
/// four lemmas oblige it to be a total order that respects specification
/// equality, and `key_cmp` is the executable comparison the containers use.
pub trait KeyOrd: Sized + Copy {
    /// Specification-level "less than or equal".
    spec fn key_le(self, other: Self) -> bool;

    /// Every key compares less than or equal to itself.
    proof fn lemma_le_refl(x: Self)
        ensures
            x.key_le(x),
    ;

    /// The ordering is transitive.
    proof fn lemma_le_trans(x: Self, y: Self, z: Self)
        requires
            x.key_le(y),
            y.key_le(z),
        ensures
            x.key_le(z),
    ;

    /// Keys ordered both ways are equal.
    proof fn lemma_le_antisym(x: Self, y: Self)
        requires
            x.key_le(y),
            y.key_le(x),
        ensures
            x == y,
    ;

    /// Any two keys are comparable.
    proof fn lemma_le_total(x: Self, y: Self)
        ensures
            x.key_le(y) || y.key_le(x),
    ;

    /// Executable three-way comparison agreeing with `key_le`.
    fn key_cmp(&self, other: &Self) -> (o: Ordering)
        ensures
            match o {
                Ordering::Less => self.key_le(*other) && *self != *other,
                Ordering::Equal => *self == *other,
                Ordering::Greater => other.key_le(*self) && *self != *other,
            },
    ;
}

/// Strict "less than" induced by [`KeyOrd::key_le`].
pub open spec fn key_lt<K: KeyOrd>(a: K, b: K) -> bool {
    a.key_le(b) && a != b
}

/// Strict "less than" is transitive.
pub proof fn lemma_key_lt_trans<K: KeyOrd>(a: K, b: K, c: K)
    requires
        key_lt(a, b),
        key_lt(b, c),
    ensures
        key_lt(a, c),
{
    K::lemma_le_trans(a, b, c);
    if a == c {
        K::lemma_le_antisym(a, b);
    }
}

/// Strict "less than" is asymmetric.
pub proof fn lemma_key_lt_asym<K: KeyOrd>(a: K, b: K)
    requires
        key_lt(a, b),
    ensures
        !key_lt(b, a),
{
    if key_lt(b, a) {
        K::lemma_le_antisym(a, b);
    }
}

/// Two distinct keys that are not ordered one way are ordered the other.
pub proof fn lemma_key_not_lt<K: KeyOrd>(a: K, b: K)
    requires
        !key_lt(a, b),
        a != b,
    ensures
        key_lt(b, a),
{
    K::lemma_le_total(a, b);
}

impl KeyOrd for i32 {
    open spec fn key_le(self, other: Self) -> bool {
        self <= other
    }

    proof fn lemma_le_refl(x: Self) {
    }

    proof fn lemma_le_trans(x: Self, y: Self, z: Self) {
    }

    proof fn lemma_le_antisym(x: Self, y: Self) {
    }

    proof fn lemma_le_total(x: Self, y: Self) {
    }

    fn key_cmp(&self, other: &Self) -> (o: Ordering) {
        if *self < *other {
            Ordering::Less
        } else if *self == *other {
            Ordering::Equal
        } else {
            Ordering::Greater
        }
    }
}

impl KeyOrd for i64 {
    open spec fn key_le(self, other: Self) -> bool {
        self <= other
    }

    proof fn lemma_le_refl(x: Self) {
    }

    proof fn lemma_le_trans(x: Self, y: Self, z: Self) {
    }

    proof fn lemma_le_antisym(x: Self, y: Self) {
    }

    proof fn lemma_le_total(x: Self, y: Self) {
    }

    fn key_cmp(&self, other: &Self) -> (o: Ordering) {
        if *self < *other {
            Ordering::Less
        } else if *self == *other {
            Ordering::Equal
        } else {
            Ordering::Greater
        }
    }
}

impl KeyOrd for u32 {
    open spec fn key_le(self, other: Self) -> bool {
        self <= other
    }

    proof fn lemma_le_refl(x: Self) {
    }

    proof fn lemma_le_trans(x: Self, y: Self, z: Self) {
    }

    proof fn lemma_le_antisym(x: Self, y: Self) {
    }

    proof fn lemma_le_total(x: Self, y: Self) {
    }

    fn key_cmp(&self, other: &Self) -> (o: Ordering) {
        if *self < *other {
            Ordering::Less
        } else if *self == *other {
            Ordering::Equal
        } else {
            Ordering::Greater
        }
    }
}

impl KeyOrd for u64 {
    open spec fn key_le(self, other: Self) -> bool {
        self <= other
    }

    proof fn lemma_le_refl(x: Self) {
    }

    proof fn lemma_le_trans(x: Self, y: Self, z: Self) {
    }

    proof fn lemma_le_antisym(x: Self, y: Self) {
    }

    proof fn lemma_le_total(x: Self, y: Self) {
    }

    fn key_cmp(&self, other: &Self) -> (o: Ordering) {
        if *self < *other {
            Ordering::Less
        } else if *self == *other {
            Ordering::Equal
        } else {
            Ordering::Greater
        }
    }
}

impl KeyOrd for usize {
    open spec fn key_le(self, other: Self) -> bool {
        self <= other
    }

    proof fn lemma_le_refl(x: Self) {
    }

    proof fn lemma_le_trans(x: Self, y: Self, z: Self) {
    }

    proof fn lemma_le_antisym(x: Self, y: Self) {
    }

    proof fn lemma_le_total(x: Self, y: Self) {
    }

    fn key_cmp(&self, other: &Self) -> (o: Ordering) {
        if *self < *other {
            Ordering::Less
        } else if *self == *other {
            Ordering::Equal
        } else {
            Ordering::Greater
        }
    }
}

} // verus!
