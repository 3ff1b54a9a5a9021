//! Ordered, event-recording associative containers.
//!
//! The crate offers a single-valued sorted store ([`store::Store`]) and a
//! multi-valued variant ([`bag_store::BagStore`]), both kept sorted by a
//! caller-supplied total order on keys and both able to record every mutation
//! as a structured change event. A bounded log with observer fan-out
//! ([`err_log::Logs`]), an interning pool ([`fly_weight::FlyWeight`]) and a
//! pairwise window helper ([`sliding`]) round the crate off.
use vstd::prelude::*;

pub mod key_order;
pub mod sorted_seq;
pub mod store;
pub mod value_eq;
pub mod bag_store;
pub mod err_log;
pub mod fly_weight;

verus! {

/// A cursor over a borrowed slice that yields each pair of adjacent
/// elements in turn: for `[a, b, c]` it yields `(a, b)` then `(b, c)`.
pub struct Sliding<'a, T> {
    items: &'a [T],
    pos: usize,
}

impl<'a, T: Copy> Sliding<'a, T> {
    /// The elements still to be paired up, starting one before the cursor.
    pub closed spec fn remaining(self) -> Seq<T> {
        self.items@.skip(self.pos as int)
    }

    /// All elements the cursor walks over.
    pub closed spec fn all_items(self) -> Seq<T> {
        self.items@
    }

    /// Position of the next pair's first element.
    pub closed spec fn position(self) -> int {
        self.pos as int
    }

    /// Yields `(items[pos], items[pos + 1])` and advances, or `None` once
    /// fewer than two elements remain.
    pub fn next(&mut self) -> (r: Option<(T, T)>)
        ensures
            old(self).all_items() == final(self).all_items(),
            old(self).position() + 1 < old(self).all_items().len() ==> {
                &&& r == Some(
                    (
                        old(self).all_items()[old(self).position()],
                        old(self).all_items()[old(self).position() + 1],
                    ),
                )
                &&& final(self).position() == old(self).position() + 1
            },
            old(self).position() + 1 >= old(self).all_items().len() ==> {
                &&& r is None
                &&& final(self).position() == old(self).position()
            },
    {
        if self.pos < self.items.len() && self.pos + 1 < self.items.len() {
            let a = self.items[self.pos];
            let b = self.items[self.pos + 1];
            self.pos = self.pos + 1;
            Some((a, b))
        } else {
            None
        }
    }
}

/// Pairwise "sliding window" over a slice: the returned cursor yields
/// `(items[0], items[1])`, `(items[1], items[2])`, and so on.
pub fn sliding<'a, T: Copy>(items: &'a [T]) -> (r: Sliding<'a, T>)
    ensures
        r.all_items() == items@,
        r.position() == 0,
{
    Sliding { items, pos: 0 }
}

/// Merges two optional values: when both are present the result is `f`
/// applied to them, when one is present it is returned unchanged, and when
/// neither is present the result is `None`.
pub fn merge_option<T, F: FnOnce(T, T) -> T>(opt0: Option<T>, opt1: Option<T>, f: F) -> (r: Option<
    T,
>)
    requires
        opt0 is Some && opt1 is Some ==> call_requires(f, (opt0.unwrap(), opt1.unwrap())),
    ensures
        opt0 is Some && opt1 is Some ==> r is Some && call_ensures(
            f,
            (opt0.unwrap(), opt1.unwrap()),
            r.unwrap(),
        ),
        opt0 is Some && opt1 is None ==> r == opt0,
        opt0 is None ==> r == opt1,
{
    if let Some(a) = opt0 {
        if let Some(b) = opt1 {
            Some(f(a, b))
        } else {
            Some(a)
        }
    } else {
        opt1
    }
}

} // verus!
