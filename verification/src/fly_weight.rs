//! Object-interning pool.
//!
//! The pool keeps one representative reference per distinct value: interning
//! a reference returns the reference stored first among those equal to it,
//! or stores and returns the given one when no equal value is pooled yet.
//!
//! Equality here is the value type's own `==`. Its meaning is available to
//! verification only for types whose equality obeys vstd's model
//! (`obeys_eq_spec`); the contracts say exactly that.
use vstd::prelude::*;

verus! {

use vstd::std_specs::cmp::PartialEqSpec;

/// Whether some pooled reference equals `x`.
pub open spec fn pool_has_eq<T: PartialEq>(pool: Seq<&T>, x: &T) -> bool {
    exists|i: int| 0 <= i < pool.len() && (#[trigger] pool[i]).eq_spec(&x)
}

/// Index of the first pooled reference equal to `x`: the number of leading
/// unequal ones.
pub open spec fn first_eq_idx<T: PartialEq>(pool: Seq<&T>, x: &T) -> int
    decreases pool.len(),
{
    if pool.len() == 0 {
        0
    } else if pool[0].eq_spec(&x) {
        0
    } else {
        1 + first_eq_idx(pool.drop_first(), x)
    }
}

/// When the pool holds a reference equal to `x`, `first_eq_idx` names the
/// first one.
pub proof fn lemma_first_eq_found<T: PartialEq>(pool: Seq<&T>, x: &T)
    requires
        pool_has_eq(pool, x),
    ensures
        0 <= first_eq_idx(pool, x) < pool.len(),
        pool[first_eq_idx(pool, x)].eq_spec(&x),
    decreases pool.len(),
{
    if pool[0].eq_spec(&x) {
    } else {
        let sub = pool.drop_first();
        assert(pool_has_eq(sub, x)) by {
            let w = choose|i: int| 0 <= i < pool.len() && (#[trigger] pool[i]).eq_spec(&x);
            assert(w != 0);
            assert(sub[w - 1] == pool[w]);
        }
        lemma_first_eq_found(sub, x);
        assert(pool[first_eq_idx(pool, x)] == sub[first_eq_idx(sub, x)]);
    }
}

/// The first equal reference is determined: any position holding an equal
/// reference with none before it equals `first_eq_idx`.
pub proof fn lemma_first_eq_characterize<T: PartialEq>(pool: Seq<&T>, x: &T, j: int)
    requires
        0 <= j < pool.len(),
        forall|t: int| 0 <= t < j ==> !(#[trigger] pool[t]).eq_spec(&x),
        pool[j].eq_spec(&x),
    ensures
        first_eq_idx(pool, x) == j,
    decreases pool.len(),
{
    if j == 0 {
    } else {
        assert(!pool[0].eq_spec(&x));
        let sub = pool.drop_first();
        assert forall|t: int| 0 <= t < j - 1 implies !(#[trigger] sub[t]).eq_spec(&x) by {
            assert(sub[t] == pool[t + 1]);
        }
        assert(sub[j - 1] == pool[j]);
        lemma_first_eq_characterize(sub, x, j - 1);
    }
}

/// A pool of representative references, one per distinct value.
#[derive(Default)]
pub struct FlyWeight<'a, T> {
    pool: Vec<&'a T>,
}

impl<'a, T> FlyWeight<'a, T> where T: Eq + core::hash::Hash {
    /// The pooled references, in the order they were first interned.
    pub closed spec fn pool_view(self) -> Seq<&'a T> {
        self.pool@
    }

    /// Creates an empty pool.
    pub fn new() -> (r: FlyWeight<'a, T>)
        ensures
            r.pool_view() == Seq::<&'a T>::empty(),
    {
        FlyWeight { pool: Vec::new() }
    }

    /// Returns the pooled reference equal to `*instance`, storing and
    /// returning `instance` itself when no equal value is pooled yet.
    ///
    /// For a value type whose `==` obeys vstd's equality model the result is
    /// exactly the first interned equal reference; for any other type the
    /// result is still either `instance` or a pooled reference.
    pub fn intern(&mut self, instance: &'a T) -> (r: &'a T)
        ensures
            T::obeys_eq_spec() ==> ({
                if pool_has_eq(old(self).pool_view(), instance) {
                    &&& final(self).pool_view() == old(self).pool_view()
                    &&& r == old(self).pool_view()[first_eq_idx(old(self).pool_view(), instance)]
                } else {
                    &&& final(self).pool_view() == old(self).pool_view().push(instance)
                    &&& r == instance
                }
            }),
            r == instance || old(self).pool_view().contains(r),
            final(self).pool_view() == old(self).pool_view() || final(self).pool_view() == old(
                self,
            ).pool_view().push(instance),
    {
        let mut j: usize = 0;
        while j < self.pool.len()
            invariant
                j <= self.pool@.len(),
                *self == *old(self),
                T::obeys_eq_spec() ==> forall|t: int|
                    0 <= t < j ==> !(#[trigger] self.pool@[t]).eq_spec(&instance),
            decreases self.pool@.len() - j,
        {
            let stored: &'a T = self.pool[j];
            if *stored == *instance {
                proof {
                    if T::obeys_eq_spec() {
                        assert(self.pool@[j as int].eq_spec(&instance));
                        lemma_first_eq_characterize(self.pool@, instance, j as int);
                        assert(pool_has_eq(self.pool@, instance));
                    }
                }
                return stored;
            }
            j += 1;
        }
        proof {
            if T::obeys_eq_spec() && pool_has_eq(self.pool@, instance) {
                let w = choose|i: int|
                    0 <= i < self.pool@.len() && (#[trigger] self.pool@[i]).eq_spec(&instance);
                assert(!self.pool@[w].eq_spec(&instance));
                assert(false);
            }
        }
        self.pool.push(instance);
        instance
    }
}

} // verus!
