//! Multi-value ordered store: a sorted mapping from key to a non-empty,
//! insertion-ordered bag of values, with an incrementally tracked total
//! element count and optional recording of every mutation as an event.
use vstd::prelude::*;

verus! {

use core::cmp::Ordering;
use vstd::pervasive::cloned;
use vstd::slice::slice_subrange;
use crate::key_order::{KeyOrd, key_lt, lemma_key_lt_trans};
use crate::value_eq::ValueEq;
use crate::sorted_seq::{
    sorted_entries, has_key, key_pos, entry_insert, lemma_key_pos_found,
    lemma_key_pos_characterize, lemma_remove_sorted, lemma_entry_insert_sorted,
    lemma_update_value_sorted,
};
use crate::store::{KeyBound, range_start_idx, range_end_idx, entries_cloned, pairs_cloned};

/// One recorded mutation of a [`BagStore`]. Values carried by an event are
/// clones of the values involved.
#[derive(Clone)]
pub enum BagStoreEvent<K, T, M> {
    Added { added: T, metadata: M },
    AddedVec { added: Vec<T>, metadata: M },
    Removed(T),
    RemovedVec(Vec<T>),
    ClearedAll,
    Changed { from_to: Vec<((K, T), (K, T))>, removed: Vec<(K, T)>, metadata: M },
    BulkAddedRemoved { added: Vec<(K, T)>, removed: Vec<(K, T)>, metadata: M },
}

/// `b` carries a clone of each value of `a`, in order.
pub open spec fn values_cloned<T: Clone>(a: Seq<T>, b: Seq<T>) -> bool {
    &&& b.len() == a.len()
    &&& forall|i: int| 0 <= i < a.len() ==> cloned(a[i], #[trigger] b[i])
}

/// Total number of values over all bags.
pub open spec fn total_count<K, T>(s: Seq<(K, Seq<T>)>) -> int
    decreases s.len(),
{
    if s.len() == 0 {
        0
    } else {
        total_count(s.drop_last()) + s.last().1.len()
    }
}

/// The mathematical view of a sequence of keyed bags.
pub open spec fn bags_view<K, T>(es: Seq<(K, Vec<T>)>) -> Seq<(K, Seq<T>)> {
    es.map_values(|e: (K, Vec<T>)| (e.0, e.1@))
}

/// The `(key, value)` pairs of one keyed bag, in insertion order.
pub open spec fn bag_pairs<K, T>(e: (K, Seq<T>)) -> Seq<(K, T)> {
    e.1.map_values(|v: T| (e.0, v))
}

/// All `(key, value)` pairs, in key order and insertion order per key.
pub open spec fn flatten_bags<K, T>(s: Seq<(K, Seq<T>)>) -> Seq<(K, T)>
    decreases s.len(),
{
    if s.len() == 0 {
        Seq::empty()
    } else {
        bag_pairs(s[0]) + flatten_bags(s.drop_first())
    }
}

/// The store after appending `v` to `k`'s bag, creating the bag if absent.
pub open spec fn bag_add_one<K: KeyOrd, T>(s: Seq<(K, Seq<T>)>, k: K, v: T) -> Seq<(K, Seq<T>)> {
    if has_key(s, k) {
        s.update(key_pos(s, k), (k, s[key_pos(s, k)].1.push(v)))
    } else {
        s.insert(key_pos(s, k), (k, seq![v]))
    }
}

/// The store after appending all of `vs` to `k`'s bag; appending nothing
/// changes nothing.
pub open spec fn bag_add_many<K: KeyOrd, T>(s: Seq<(K, Seq<T>)>, k: K, vs: Seq<T>) -> Seq<
    (K, Seq<T>),
> {
    if vs.len() == 0 {
        s
    } else if has_key(s, k) {
        s.update(key_pos(s, k), (k, s[key_pos(s, k)].1 + vs))
    } else {
        s.insert(key_pos(s, k), (k, vs))
    }
}

/// Whether some value of `bag` equals `v`.
pub open spec fn bag_contains<T: ValueEq>(bag: Seq<T>, v: T) -> bool {
    exists|i: int| 0 <= i < bag.len() && (#[trigger] bag[i]).veq(v)
}

/// Index of the first value of `bag` equal to `v`: the number of leading
/// values unequal to it.
pub open spec fn first_veq<T: ValueEq>(bag: Seq<T>, v: T) -> int
    decreases bag.len(),
{
    if bag.len() == 0 {
        0
    } else if bag[0].veq(v) {
        0
    } else {
        1 + first_veq(bag.drop_first(), v)
    }
}

/// The store after removing the first value equal to `v` from `k`'s bag; a
/// bag left empty disappears with its key.
pub open spec fn bag_remove_one<K: KeyOrd, T: ValueEq>(s: Seq<(K, Seq<T>)>, k: K, v: T) -> Seq<
    (K, Seq<T>),
> {
    if has_key(s, k) && bag_contains(s[key_pos(s, k)].1, v) {
        let p = key_pos(s, k);
        let nb = s[p].1.remove(first_veq(s[p].1, v));
        if nb.len() == 0 {
            s.remove(p)
        } else {
            s.update(p, (k, nb))
        }
    } else {
        s
    }
}

/// The value removed by [`bag_remove_one`], if any.
pub open spec fn bag_removed_value<K: KeyOrd, T: ValueEq>(s: Seq<(K, Seq<T>)>, k: K, v: T) -> Option<
    T,
> {
    if has_key(s, k) && bag_contains(s[key_pos(s, k)].1, v) {
        Some(s[key_pos(s, k)].1[first_veq(s[key_pos(s, k)].1, v)])
    } else {
        None
    }
}

/// The store after removing, in order, the first occurrence of each value of
/// `vs` from `k`'s bag.
pub open spec fn bag_remove_list<K: KeyOrd, T: ValueEq>(
    s: Seq<(K, Seq<T>)>,
    k: K,
    vs: Seq<T>,
) -> Seq<(K, Seq<T>)>
    decreases vs.len(),
{
    if vs.len() == 0 {
        s
    } else {
        bag_remove_list(bag_remove_one(s, k, vs[0]), k, vs.drop_first())
    }
}

/// The values actually removed by [`bag_remove_list`], in order.
pub open spec fn bag_removed_list<K: KeyOrd, T: ValueEq>(
    s: Seq<(K, Seq<T>)>,
    k: K,
    vs: Seq<T>,
) -> Seq<T>
    decreases vs.len(),
{
    if vs.len() == 0 {
        Seq::empty()
    } else {
        let rest = bag_removed_list(bag_remove_one(s, k, vs[0]), k, vs.drop_first());
        match bag_removed_value(s, k, vs[0]) {
            Some(x) => seq![x] + rest,
            None => rest,
        }
    }
}

/// The event is `RemovedVec` carrying exactly the values `vs`.
pub open spec fn bag_removed_vec_event_exact<K, T, M>(e: BagStoreEvent<K, T, M>, vs: Seq<T>) -> bool {
    match e {
        BagStoreEvent::RemovedVec(a) => a@ == vs,
        _ => false,
    }
}

/// When `bag` holds a value equal to `v`, `first_veq` names the first one.
pub proof fn lemma_first_veq_found<T: ValueEq>(bag: Seq<T>, v: T)
    requires
        bag_contains(bag, v),
    ensures
        0 <= first_veq(bag, v) < bag.len(),
        bag[first_veq(bag, v)].veq(v),
        forall|t: int| 0 <= t < first_veq(bag, v) ==> !(#[trigger] bag[t]).veq(v),
    decreases bag.len(),
{
    if bag[0].veq(v) {
    } else {
        let sub = bag.drop_first();
        assert(bag_contains(sub, v)) by {
            let w = choose|i: int| 0 <= i < bag.len() && (#[trigger] bag[i]).veq(v);
            assert(w != 0);
            assert(sub[w - 1] == bag[w]);
        }
        lemma_first_veq_found(sub, v);
        let p = first_veq(bag, v);
        assert(bag[p] == sub[p - 1]);
        assert forall|t: int| 0 <= t < p implies !(#[trigger] bag[t]).veq(v) by {
            if t > 0 {
                assert(bag[t] == sub[t - 1]);
                assert(!sub[t - 1].veq(v));
            }
        }
    }
}

/// The first equal value is determined: any position with an equal value and
/// none before it equals `first_veq`.
pub proof fn lemma_first_veq_characterize<T: ValueEq>(bag: Seq<T>, v: T, j: int)
    requires
        0 <= j < bag.len(),
        forall|t: int| 0 <= t < j ==> !(#[trigger] bag[t]).veq(v),
        bag[j].veq(v),
    ensures
        first_veq(bag, v) == j,
    decreases bag.len(),
{
    if j == 0 {
    } else {
        assert(!bag[0].veq(v));
        let sub = bag.drop_first();
        assert forall|t: int| 0 <= t < j - 1 implies !(#[trigger] sub[t]).veq(v) by {
            assert(sub[t] == bag[t + 1]);
        }
        assert(sub[j - 1] == bag[j]);
        lemma_first_veq_characterize(sub, v, j - 1);
    }
}

/// The store after the removal phase of a batch move: the first occurrence
/// of every `from` pair of `ft` is removed, first to last.
pub open spec fn bag_change_phase1<K: KeyOrd, T: ValueEq>(
    s: Seq<(K, Seq<T>)>,
    ft: Seq<((K, T), (K, T))>,
) -> Seq<(K, Seq<T>)>
    decreases ft.len(),
{
    if ft.len() == 0 {
        s
    } else {
        bag_change_phase1(bag_remove_one(s, ft[0].0.0, ft[0].0.1), ft.drop_first())
    }
}

/// The realized moves of a batch move: for every `from` pair that was
/// present, the removed `(key, value)` paired with its destination.
pub open spec fn bag_change_realized<K: KeyOrd, T: ValueEq>(
    s: Seq<(K, Seq<T>)>,
    ft: Seq<((K, T), (K, T))>,
) -> Seq<((K, T), (K, T))>
    decreases ft.len(),
{
    if ft.len() == 0 {
        Seq::empty()
    } else {
        let rest = bag_change_realized(bag_remove_one(s, ft[0].0.0, ft[0].0.1), ft.drop_first());
        match bag_removed_value(s, ft[0].0.0, ft[0].0.1) {
            Some(x) => seq![((ft[0].0.0, x), ft[0].1)] + rest,
            None => rest,
        }
    }
}

/// The destination pairs of the realized moves.
pub open spec fn bag_change_insertions<K: KeyOrd, T: ValueEq>(
    s: Seq<(K, Seq<T>)>,
    ft: Seq<((K, T), (K, T))>,
) -> Seq<(K, T)> {
    bag_change_realized(s, ft).map_values(|p: ((K, T), (K, T))| p.1)
}

/// The store after appending every pair of `recs`, first to last.
pub open spec fn bag_insert_all<K: KeyOrd, T>(s: Seq<(K, Seq<T>)>, recs: Seq<(K, T)>) -> Seq<
    (K, Seq<T>),
>
    decreases recs.len(),
{
    if recs.len() == 0 {
        s
    } else {
        bag_insert_all(bag_add_one(s, recs[0].0, recs[0].1), recs.drop_first())
    }
}

/// The store after removing the first occurrence of every pair of `recs`,
/// first to last.
pub open spec fn bag_remove_all<K: KeyOrd, T: ValueEq>(
    s: Seq<(K, Seq<T>)>,
    recs: Seq<(K, T)>,
) -> Seq<(K, Seq<T>)>
    decreases recs.len(),
{
    if recs.len() == 0 {
        s
    } else {
        bag_remove_all(bag_remove_one(s, recs[0].0, recs[0].1), recs.drop_first())
    }
}

/// The pairs actually removed by [`bag_remove_all`], in order.
pub open spec fn bag_removed_all<K: KeyOrd, T: ValueEq>(
    s: Seq<(K, Seq<T>)>,
    recs: Seq<(K, T)>,
) -> Seq<(K, T)>
    decreases recs.len(),
{
    if recs.len() == 0 {
        Seq::empty()
    } else {
        let rest = bag_removed_all(bag_remove_one(s, recs[0].0, recs[0].1), recs.drop_first());
        match bag_removed_value(s, recs[0].0, recs[0].1) {
            Some(x) => seq![(recs[0].0, x)] + rest,
            None => rest,
        }
    }
}

/// Removing one value lowers the total count by one exactly when a value
/// was found.
pub proof fn lemma_bag_remove_one_count<K: KeyOrd, T: ValueEq>(s: Seq<(K, Seq<T>)>, k: K, v: T)
    requires
        sorted_entries(s),
    ensures
        total_count(bag_remove_one(s, k, v)) == total_count(s) - (
        if bag_removed_value(s, k, v) is Some {
            1int
        } else {
            0int
        }),
{
    if has_key(s, k) && bag_contains(s[key_pos(s, k)].1, v) {
        lemma_key_pos_found(s, k);
        lemma_first_veq_found(s[key_pos(s, k)].1, v);
        let p = key_pos(s, k);
        let nb = s[p].1.remove(first_veq(s[p].1, v));
        if nb.len() == 0 {
            lemma_total_count_remove(s, p);
        } else {
            lemma_total_count_update(s, p, (k, nb));
        }
    }
}

/// Appending one value raises the total count by one.
pub proof fn lemma_bag_add_one_count<K: KeyOrd, T>(s: Seq<(K, Seq<T>)>, k: K, v: T)
    requires
        sorted_entries(s),
    ensures
        total_count(bag_add_one(s, k, v)) == total_count(s) + 1,
{
    if has_key(s, k) {
        lemma_key_pos_found(s, k);
        let p = key_pos(s, k);
        lemma_total_count_update(s, p, (k, s[p].1.push(v)));
    } else {
        crate::sorted_seq::lemma_key_pos_bounds(s, k);
        lemma_total_count_insert(s, key_pos(s, k), (k, seq![v]));
    }
}

pub proof fn lemma_total_count_nonneg<K, T>(s: Seq<(K, Seq<T>)>)
    ensures
        total_count(s) >= 0,
    decreases s.len(),
{
    if s.len() > 0 {
        lemma_total_count_nonneg(s.drop_last());
    }
}

pub proof fn lemma_total_count_update<K, T>(s: Seq<(K, Seq<T>)>, i: int, e: (K, Seq<T>))
    requires
        0 <= i < s.len(),
    ensures
        total_count(s.update(i, e)) == total_count(s) - s[i].1.len() + e.1.len(),
    decreases s.len(),
{
    let u = s.update(i, e);
    if i == s.len() - 1 {
        assert(u.drop_last() =~= s.drop_last());
        assert(u.last() == e);
    } else {
        assert(u.drop_last() =~= s.drop_last().update(i, e));
        assert(u.last() == s.last());
        lemma_total_count_update(s.drop_last(), i, e);
    }
}

pub proof fn lemma_total_count_insert<K, T>(s: Seq<(K, Seq<T>)>, i: int, e: (K, Seq<T>))
    requires
        0 <= i <= s.len(),
    ensures
        total_count(s.insert(i, e)) == total_count(s) + e.1.len(),
    decreases s.len(),
{
    let u = s.insert(i, e);
    if i == s.len() {
        assert(u.drop_last() =~= s);
        assert(u.last() == e);
    } else {
        assert(u.drop_last() =~= s.drop_last().insert(i, e));
        assert(u.last() == s.last());
        lemma_total_count_insert(s.drop_last(), i, e);
    }
}

pub proof fn lemma_total_count_remove<K, T>(s: Seq<(K, Seq<T>)>, i: int)
    requires
        0 <= i < s.len(),
    ensures
        total_count(s.remove(i)) == total_count(s) - s[i].1.len(),
    decreases s.len(),
{
    let u = s.remove(i);
    if i == s.len() - 1 {
        assert(u =~= s.drop_last());
    } else {
        assert(u.drop_last() =~= s.drop_last().remove(i));
        assert(u.last() == s.last());
        lemma_total_count_remove(s.drop_last(), i);
    }
}

/// The total count is at least the size of any one bag.
pub proof fn lemma_total_count_bound<K, T>(s: Seq<(K, Seq<T>)>, i: int)
    requires
        0 <= i < s.len(),
    ensures
        total_count(s) >= s[i].1.len(),
    decreases s.len(),
{
    lemma_total_count_nonneg(s.drop_last());
    if i < s.len() - 1 {
        lemma_total_count_bound(s.drop_last(), i);
    }
}

/// The event is `Added` carrying a clone of `v` and the metadata `m`.
pub open spec fn bag_added_event_matches<K, T: Clone, M>(
    e: BagStoreEvent<K, T, M>,
    v: T,
    m: M,
) -> bool {
    match e {
        BagStoreEvent::Added { added: a, metadata: md } => cloned(v, a) && md == m,
        _ => false,
    }
}

/// The event is `AddedVec` carrying clones of `vs` and the metadata `m`.
pub open spec fn bag_added_vec_event_matches<K, T: Clone, M>(
    e: BagStoreEvent<K, T, M>,
    vs: Seq<T>,
    m: M,
) -> bool {
    match e {
        BagStoreEvent::AddedVec { added: a, metadata: md } => values_cloned(vs, a@) && md == m,
        _ => false,
    }
}

/// The event is `Removed` carrying a clone of `v`.
pub open spec fn bag_removed_event_matches<K, T: Clone, M>(e: BagStoreEvent<K, T, M>, v: T) -> bool {
    match e {
        BagStoreEvent::Removed(x) => cloned(v, x),
        _ => false,
    }
}

/// The event is `RemovedVec` carrying clones of `vs`.
pub open spec fn bag_removed_vec_event_matches<K, T: Clone, M>(
    e: BagStoreEvent<K, T, M>,
    vs: Seq<T>,
) -> bool {
    match e {
        BagStoreEvent::RemovedVec(a) => values_cloned(vs, a@),
        _ => false,
    }
}

/// The event is `BulkAddedRemoved` carrying clones of `added` and `removed`
/// and the metadata `m`.
pub open spec fn bag_bulk_event_matches<K, T: Clone, M>(
    e: BagStoreEvent<K, T, M>,
    added: Seq<(K, T)>,
    removed: Seq<(K, T)>,
    m: M,
) -> bool {
    match e {
        BagStoreEvent::BulkAddedRemoved { added: a, removed: r, metadata: md } => {
            &&& entries_cloned(added, a@)
            &&& entries_cloned(removed, r@)
            &&& md == m
        },
        _ => false,
    }
}

/// The event is `Changed` carrying clones of the realized moves and the
/// metadata `m`, with nothing on its removed side.
pub open spec fn bag_changed_event_matches<K, T: Clone, M>(
    e: BagStoreEvent<K, T, M>,
    from_to: Seq<((K, T), (K, T))>,
    m: M,
) -> bool {
    match e {
        BagStoreEvent::Changed { from_to: ft, removed: r, metadata: md } => {
            &&& pairs_cloned(from_to, ft@)
            &&& r@.len() == 0
            &&& md == m
        },
        _ => false,
    }
}

/// A sorted mapping from key to a non-empty, insertion-ordered bag of
/// values, with an incrementally tracked total element count.
pub struct BagStore<K: KeyOrd, T, M> {
    store: Vec<(K, Vec<T>)>,
    empty: Vec<T>,
    events: Option<Vec<BagStoreEvent<K, T, M>>>,
    count: usize,
}

impl<K: KeyOrd, T, M> View for BagStore<K, T, M> {
    type V = Seq<(K, Seq<T>)>;

    closed spec fn view(&self) -> Seq<(K, Seq<T>)> {
        bags_view(self.store@)
    }
}

impl<K: KeyOrd, T, M> BagStore<K, T, M> where T: ValueEq + Clone {
    /// Keys are strictly ascending, no bag is empty, and the element count
    /// equals the sum of all bag sizes.
    pub open spec fn wf(self) -> bool {
        &&& sorted_entries(self@)
        &&& (forall|i: int| 0 <= i < self@.len() ==> (#[trigger] self@[i]).1.len() > 0)
        &&& self.internal_ok()
    }

    /// The tracked count agrees with the bags.
    pub closed spec fn internal_ok(self) -> bool {
        &&& self.count as int == total_count(self@)
        &&& self.empty@.len() == 0
    }

    /// Whether this store records change events.
    pub closed spec fn holds_events(self) -> bool {
        self.events is Some
    }

    /// The recorded events; empty when recording is disabled.
    pub closed spec fn events_model(self) -> Seq<BagStoreEvent<K, T, M>> {
        if self.events is Some {
            self.events.unwrap()@
        } else {
            Seq::empty()
        }
    }

    /// Creates an empty store; `hold_events` decides whether mutations are
    /// recorded as events.
    pub fn new(hold_events: bool) -> (r: Self)
        ensures
            r.wf(),
            r@ == Seq::<(K, Seq<T>)>::empty(),
            r.holds_events() == hold_events,
            r.events_model() == Seq::<BagStoreEvent<K, T, M>>::empty(),
    {
        let r = BagStore {
            store: Vec::new(),
            empty: Vec::new(),
            events: if hold_events {
                Some(Vec::new())
            } else {
                None
            },
            count: 0,
        };
        proof {
            assert(r@ =~= Seq::<(K, Seq<T>)>::empty());
        }
        r
    }

    /// Whether this store records change events.
    pub fn has_event_log(&self) -> (r: bool)
        ensures
            r == self.holds_events(),
    {
        self.events.is_some()
    }

    /// Appends `e` to the event log when one is held; otherwise does
    /// nothing.
    fn record_event(&mut self, e: BagStoreEvent<K, T, M>)
        ensures
            final(self)@ == old(self)@,
            final(self).internal_ok() == old(self).internal_ok(),
            final(self).holds_events() == old(self).holds_events(),
            old(self).holds_events() ==> final(self).events_model() == old(
                self,
            ).events_model().push(e),
            !old(self).holds_events() ==> *final(self) == *old(self),
    {
        let evs = self.events.take();
        match evs {
            Some(mut v) => {
                v.push(e);
                self.events = Some(v);
            },
            None => {},
        }
    }

    /// Total number of values over all bags.
    pub fn len(&self) -> (r: usize)
        requires
            self.wf(),
        ensures
            r as int == total_count(self@),
    {
        self.count
    }

    /// Whether the store holds no values at all.
    pub fn is_empty(&self) -> (r: bool)
        requires
            self.wf(),
        ensures
            r == (total_count(self@) == 0),
    {
        self.count == 0
    }

    /// The recorded events. May be called only on a store built with
    /// `hold_events` set; on any other store execution halts.
    pub fn events(&self) -> (r: &Vec<BagStoreEvent<K, T, M>>)
        requires
            self.holds_events(),
        ensures
            r@ == self.events_model(),
    {
        match &self.events {
            Some(v) => v,
            None => vstd::pervasive::unreached(),
        }
    }

    /// Empties the event log, keeping the bags.
    pub fn clear_events(&mut self)
        ensures
            final(self)@ == old(self)@,
            final(self).wf() == old(self).wf(),
            final(self).holds_events() == old(self).holds_events(),
            final(self).events_model() == Seq::<BagStoreEvent<K, T, M>>::empty(),
    {
        let evs = self.events.take();
        match evs {
            Some(mut v) => {
                v.clear();
                self.events = Some(v);
            },
            None => {},
        }
    }

    /// Binary search for `key` among the bags: `Ok(i)` when entry `i`
    /// carries `key`, `Err(i)` with the insertion position otherwise.
    fn find_internal(&self, key: K) -> (r: Result<usize, usize>)
        requires
            sorted_entries(self@),
        ensures
            match r {
                Ok(i) => {
                    &&& has_key(self@, key)
                    &&& i == key_pos(self@, key)
                    &&& i < self@.len()
                    &&& self@[i as int].0 == key
                },
                Err(i) => {
                    &&& !has_key(self@, key)
                    &&& i == key_pos(self@, key)
                    &&& i <= self@.len()
                },
            },
    {
        let mut lo: usize = 0;
        let mut hi: usize = self.store.len();
        proof {
            assert(self@.len() == self.store@.len());
        }
        while lo < hi
            invariant
                sorted_entries(self@),
                self@.len() == self.store@.len(),
                forall|j: int| 0 <= j < self@.len() ==> (#[trigger] self@[j]).0 == self.store@[j].0,
                lo <= hi <= self@.len(),
                forall|j: int| 0 <= j < lo ==> key_lt((#[trigger] self@[j]).0, key),
                forall|j: int| hi <= j < self@.len() ==> !key_lt((#[trigger] self@[j]).0, key),
            decreases hi - lo,
        {
            let mid = lo + (hi - lo) / 2;
            let mk = self.store[mid].0;
            match mk.key_cmp(&key) {
                Ordering::Less => {
                    proof {
                        assert forall|j: int| 0 <= j < mid + 1 implies key_lt(
                            (#[trigger] self@[j]).0,
                            key,
                        ) by {
                            if j < mid {
                                assert(key_lt(self@[j].0, self@[mid as int].0));
                                lemma_key_lt_trans(self@[j].0, self@[mid as int].0, key);
                            }
                        }
                    }
                    lo = mid + 1;
                },
                Ordering::Equal => {
                    proof {
                        assert forall|j: int| mid <= j < self@.len() implies !key_lt(
                            (#[trigger] self@[j]).0,
                            key,
                        ) by {
                            if j > mid && key_lt(self@[j].0, key) {
                                assert(key_lt(self@[mid as int].0, self@[j].0));
                                lemma_key_lt_trans(self@[mid as int].0, self@[j].0, key);
                            }
                        }
                    }
                    hi = mid;
                },
                Ordering::Greater => {
                    proof {
                        assert(!key_lt(self@[mid as int].0, key)) by {
                            if key_lt(self@[mid as int].0, key) {
                                K::lemma_le_antisym(self@[mid as int].0, key);
                            }
                        }
                        assert forall|j: int| mid <= j < self@.len() implies !key_lt(
                            (#[trigger] self@[j]).0,
                            key,
                        ) by {
                            if j > mid && key_lt(self@[j].0, key) {
                                assert(key_lt(self@[mid as int].0, self@[j].0));
                                lemma_key_lt_trans(self@[mid as int].0, self@[j].0, key);
                            }
                        }
                    }
                    hi = mid;
                },
            }
        }
        proof {
            lemma_key_pos_characterize(self@, key, lo as int);
        }
        if lo < self.store.len() {
            let lk = self.store[lo].0;
            match lk.key_cmp(&key) {
                Ordering::Equal => {
                    proof {
                        assert(0 <= lo < self@.len() && self@[lo as int].0 == key);
                        assert(has_key(self@, key));
                    }
                    Ok(lo)
                },
                _ => {
                    proof {
                        if has_key(self@, key) {
                            lemma_key_pos_found(self@, key);
                            assert(false);
                        }
                    }
                    Err(lo)
                },
            }
        } else {
            proof {
                if has_key(self@, key) {
                    lemma_key_pos_found(self@, key);
                    assert(false);
                }
            }
            Err(lo)
        }
    }

    /// The bag under `key`; an empty slice of values when the key is absent.
    pub fn get(&self, key: K) -> (r: &Vec<T>)
        requires
            self.wf(),
        ensures
            has_key(self@, key) ==> r@ == self@[key_pos(self@, key)].1,
            !has_key(self@, key) ==> r@ == Seq::<T>::empty(),
    {
        match self.find_internal(key) {
            Ok(i) => {
                proof {
                    assert(self@[i as int].1 == self.store@[i as int].1@);
                }
                &self.store[i].1
            },
            Err(_) => {
                proof {
                    assert(self.empty@ =~= Seq::<T>::empty());
                }
                &self.empty
            },
        }
    }

    /// The entry with the greatest key, if any.
    pub fn peek_last(&self) -> (r: Option<&(K, Vec<T>)>)
        ensures
            self@.len() == 0 ==> r is None,
            self@.len() > 0 ==> {
                &&& r is Some
                &&& r.unwrap().0 == self@[self@.len() - 1].0
                &&& r.unwrap().1@ == self@[self@.len() - 1].1
            },
    {
        if self.store.len() == 0 {
            None
        } else {
            proof {
                assert(self@[self@.len() - 1].0 == self.store@[self.store@.len() - 1].0);
                assert(self@[self@.len() - 1].1 == self.store@[self.store@.len() - 1].1@);
            }
            Some(&self.store[self.store.len() - 1])
        }
    }

    /// The keyed bags as a sorted slice.
    pub fn as_slice(&self) -> (r: &[(K, Vec<T>)])
        ensures
            bags_view(r@) == self@,
    {
        self.store.as_slice()
    }

    /// Appends `e` to `key`'s bag without recording an event.
    fn add_internal(&mut self, key: K, e: T)
        requires
            old(self).wf(),
            total_count(old(self)@) < usize::MAX,
        ensures
            final(self).wf(),
            final(self)@ == bag_add_one(old(self)@, key, e),
            final(self).holds_events() == old(self).holds_events(),
            final(self).events_model() == old(self).events_model(),
    {
        match self.find_internal(key) {
            Ok(i) => {
                let mut entry = self.store.remove(i);
                entry.1.push(e);
                let ghost nb = entry.1@;
                self.store.insert(i, entry);
                proof {
                    assert(self@ =~= old(self)@.update(i as int, (key, nb)));
                    assert(nb == old(self)@[i as int].1.push(e));
                    lemma_update_value_sorted(old(self)@, i as int, nb);
                    assert(old(self)@.update(i as int, (old(self)@[i as int].0, nb)) == old(
                        self,
                    )@.update(i as int, (key, nb)));
                    lemma_total_count_update(old(self)@, i as int, (key, nb));
                }
                self.count = self.count + 1;
            },
            Err(i) => {
                let mut bag: Vec<T> = Vec::new();
                bag.push(e);
                let ghost nb = bag@;
                self.store.insert(i, (key, bag));
                proof {
                    assert(nb =~= seq![e]);
                    assert(self@ =~= old(self)@.insert(i as int, (key, nb)));
                    lemma_entry_insert_sorted(old(self)@, key, nb);
                    assert(entry_insert(old(self)@, key, nb) == old(self)@.insert(
                        i as int,
                        (key, nb),
                    ));
                    lemma_total_count_insert(old(self)@, i as int, (key, nb));
                }
                self.count = self.count + 1;
            },
        }
    }

    /// Appends `e` to `key`'s bag, creating the bag when the key is new, and
    /// records `Added`.
    pub fn add(&mut self, key: K, e: T, metadata: M)
        requires
            old(self).wf(),
            total_count(old(self)@) < usize::MAX,
        ensures
            final(self).wf(),
            final(self)@ == bag_add_one(old(self)@, key, e),
            final(self).holds_events() == old(self).holds_events(),
            !old(self).holds_events() ==> final(self).events_model() == old(self).events_model(),
            old(self).holds_events() ==> exists|ev: BagStoreEvent<K, T, M>|
                {
                    &&& bag_added_event_matches(ev, e, metadata)
                    &&& final(self).events_model() == old(self).events_model().push(ev)
                },
    {
        let hold = self.has_event_log();
        if hold {
            let c = e.clone();
            self.add_internal(key, e);
            let ev = BagStoreEvent::Added { added: c, metadata };
            let ghost evg = ev;
            self.record_event(ev);
            proof {
                assert(bag_added_event_matches(evg, e, metadata));
                assert(self.events_model() == old(self).events_model().push(evg));
            }
        } else {
            self.add_internal(key, e);
        }
    }

    /// Clones a batch of values, for an event payload.
    fn clone_values(vals: &Vec<T>) -> (r: Vec<T>)
        ensures
            values_cloned(vals@, r@),
    {
        let mut r: Vec<T> = Vec::new();
        let mut idx: usize = 0;
        while idx < vals.len()
            invariant
                idx <= vals@.len(),
                r@.len() == idx,
                forall|i: int| 0 <= i < idx ==> cloned(vals@[i], #[trigger] r@[i]),
            decreases vals@.len() - idx,
        {
            r.push(vals[idx].clone());
            idx += 1;
        }
        r
    }

    /// Position of the first value of `bag` equal to `*e`, if any.
    fn find_first_veq(bag: &Vec<T>, e: &T) -> (r: Option<usize>)
        ensures
            match r {
                Some(j) => {
                    &&& bag_contains(bag@, *e)
                    &&& j as int == first_veq(bag@, *e)
                    &&& j < bag@.len()
                    &&& bag@[j as int].veq(*e)
                },
                None => !bag_contains(bag@, *e),
            },
    {
        let mut j: usize = 0;
        while j < bag.len()
            invariant
                j <= bag@.len(),
                forall|t: int| 0 <= t < j ==> !(#[trigger] bag@[t]).veq(*e),
            decreases bag@.len() - j,
        {
            if bag[j].value_eq(e) {
                proof {
                    lemma_first_veq_characterize(bag@, *e, j as int);
                    assert(0 <= j < bag@.len() && bag@[j as int].veq(*e));
                    assert(bag_contains(bag@, *e));
                }
                return Some(j);
            }
            j += 1;
        }
        proof {
            if bag_contains(bag@, *e) {
                let w = choose|i: int| 0 <= i < bag@.len() && (#[trigger] bag@[i]).veq(*e);
                assert(!bag@[w].veq(*e));
                assert(false);
            }
        }
        None
    }

    /// Removes the first value of `key`'s bag equal to `*e` without
    /// recording an event; a bag left empty disappears with its key.
    fn remove_internal(&mut self, key: &K, e: &T) -> (r: Option<T>)
        requires
            old(self).wf(),
        ensures
            final(self).wf(),
            final(self)@ == bag_remove_one(old(self)@, *key, *e),
            r == bag_removed_value(old(self)@, *key, *e),
            final(self).holds_events() == old(self).holds_events(),
            final(self).events_model() == old(self).events_model(),
    {
        match self.find_internal(*key) {
            Ok(i) => {
                let mut entry = self.store.remove(i);
                proof {
                    assert(entry.1@ == old(self)@[i as int].1);
                    assert(entry.0 == old(self)@[i as int].0);
                }
                match Self::find_first_veq(&entry.1, e) {
                    Some(j) => {
                        proof {
                            lemma_total_count_bound(old(self)@, i as int);
                        }
                        let x = entry.1.remove(j);
                        let ghost nb = entry.1@;
                        self.count = self.count - 1;
                        if entry.1.len() == 0 {
                            proof {
                                lemma_remove_sorted(old(self)@, i as int);
                                lemma_total_count_remove(old(self)@, i as int);
                                assert(self@ =~= old(self)@.remove(i as int));
                            }
                        } else {
                            self.store.insert(i, entry);
                            proof {
                                assert(self@ =~= old(self)@.update(i as int, (*key, nb)));
                                lemma_update_value_sorted(old(self)@, i as int, nb);
                                assert(old(self)@.update(
                                    i as int,
                                    (old(self)@[i as int].0, nb),
                                ) == old(self)@.update(i as int, (*key, nb)));
                                lemma_total_count_update(old(self)@, i as int, (*key, nb));
                            }
                        }
                        Some(x)
                    },
                    None => {
                        self.store.insert(i, entry);
                        proof {
                            assert(self@ =~= old(self)@);
                        }
                        None
                    },
                }
            },
            Err(_) => None,
        }
    }

    /// Removes the first value of `key`'s bag equal to `*e` and records
    /// `Removed`; a missing key or value is a no-op that records nothing.
    pub fn remove(&mut self, key: &K, e: &T) -> (r: Option<T>)
        requires
            old(self).wf(),
        ensures
            final(self).wf(),
            final(self)@ == bag_remove_one(old(self)@, *key, *e),
            r == bag_removed_value(old(self)@, *key, *e),
            final(self).holds_events() == old(self).holds_events(),
            old(self).holds_events() && bag_removed_value(old(self)@, *key, *e) is Some
                ==> exists|ev: BagStoreEvent<K, T, M>|
                {
                    &&& bag_removed_event_matches(ev, *e)
                    &&& final(self).events_model() == old(self).events_model().push(ev)
                },
            !(old(self).holds_events() && bag_removed_value(old(self)@, *key, *e) is Some)
                ==> final(self).events_model() == old(self).events_model(),
    {
        let ret = self.remove_internal(key, e);
        match ret {
            Some(x) => {
                if self.has_event_log() {
                    let c = e.clone();
                    let ev = BagStoreEvent::Removed(c);
                    let ghost evg = ev;
                    self.record_event(ev);
                    proof {
                        assert(bag_removed_event_matches(evg, *e));
                        assert(self.events_model() == old(self).events_model().push(evg));
                    }
                }
                Some(x)
            },
            None => None,
        }
    }

    /// Removes, in order, the first occurrence of each value of
    /// `value_table` from `key`'s bag (missing values are skipped) and
    /// records one `RemovedVec` event carrying exactly the values removed.
    pub fn remove_vec(&mut self, key: &K, value_table: &Vec<T>)
        requires
            old(self).wf(),
        ensures
            final(self).wf(),
            final(self)@ == bag_remove_list(old(self)@, *key, value_table@),
            final(self).holds_events() == old(self).holds_events(),
            !old(self).holds_events() ==> final(self).events_model() == old(self).events_model(),
            old(self).holds_events() ==> exists|ev: BagStoreEvent<K, T, M>|
                {
                    &&& bag_removed_vec_event_exact(
                        ev,
                        bag_removed_list(old(self)@, *key, value_table@),
                    )
                    &&& final(self).events_model() == old(self).events_model().push(ev)
                },
    {
        let hold = self.has_event_log();
        let ghost s0 = self@;
        let ghost vs = value_table@;
        let mut removed: Vec<T> = Vec::new();
        let mut idx: usize = 0;
        proof {
            assert(vs.skip(0) =~= vs);
            assert(Seq::<T>::empty() + bag_removed_list(self@, *key, vs) =~= bag_removed_list(
                self@,
                *key,
                vs,
            ));
        }
        while idx < value_table.len()
            invariant
                self.wf(),
                idx <= vs.len(),
                vs == value_table@,
                self.holds_events() == old(self).holds_events(),
                self.events_model() == old(self).events_model(),
                hold == self.holds_events(),
                bag_remove_list(s0, *key, vs) == bag_remove_list(self@, *key, vs.skip(idx as int)),
                bag_removed_list(s0, *key, vs) == removed@ + bag_removed_list(
                    self@,
                    *key,
                    vs.skip(idx as int),
                ),
            decreases vs.len() - idx,
        {
            let ghost rest = vs.skip(idx as int);
            let d = self.remove_internal(key, &value_table[idx]);
            proof {
                assert(rest[0] == vs[idx as int]);
                assert(rest.drop_first() =~= vs.skip(idx as int + 1));
            }
            match d {
                Some(x) => {
                    proof {
                        assert(removed@.push(x) + bag_removed_list(
                            self@,
                            *key,
                            vs.skip(idx as int + 1),
                        ) =~= removed@ + (seq![x] + bag_removed_list(
                            self@,
                            *key,
                            vs.skip(idx as int + 1),
                        )));
                    }
                    removed.push(x);
                },
                None => {},
            }
            idx += 1;
        }
        proof {
            assert(vs.skip(vs.len() as int) =~= Seq::<T>::empty());
            assert(bag_remove_list(self@, *key, vs.skip(idx as int)) == self@);
            assert(removed@ + bag_removed_list(self@, *key, vs.skip(idx as int)) =~= removed@);
        }
        if hold {
            let ghost rvg = removed@;
            let ev = BagStoreEvent::RemovedVec(removed);
            let ghost evg = ev;
            self.record_event(ev);
            proof {
                assert(bag_removed_vec_event_exact(evg, bag_removed_list(s0, *key, vs)));
                assert(self.events_model() == old(self).events_model().push(evg));
            }
        }
    }

    /// Appends every value of `e` to `key`'s bag, creating the bag when the
    /// key is new and values arrive, and records `AddedVec`.
    pub fn add_vec(&mut self, key: K, e: Vec<T>, metadata: M)
        requires
            old(self).wf(),
            total_count(old(self)@) + e@.len() <= usize::MAX,
        ensures
            final(self).wf(),
            final(self)@ == bag_add_many(old(self)@, key, e@),
            final(self).holds_events() == old(self).holds_events(),
            !old(self).holds_events() ==> final(self).events_model() == old(self).events_model(),
            old(self).holds_events() ==> exists|ev: BagStoreEvent<K, T, M>|
                {
                    &&& bag_added_vec_event_matches(ev, e@, metadata)
                    &&& final(self).events_model() == old(self).events_model().push(ev)
                },
    {
        let hold = self.has_event_log();
        let ev_vals: Option<Vec<T>> = if hold {
            Some(Self::clone_values(&e))
        } else {
            None
        };
        let ghost s0 = self@;
        let ghost vs = e@;
        let n = e.len();
        if n > 0 {
            let mut e = e;
            match self.find_internal(key) {
                Ok(i) => {
                    let mut entry = self.store.remove(i);
                    proof {
                        assert(entry.1@ == s0[i as int].1);
                    }
                    entry.1.append(&mut e);
                    let ghost nb = entry.1@;
                    self.store.insert(i, entry);
                    proof {
                        assert(self@ =~= s0.update(i as int, (key, nb)));
                        assert(nb == s0[i as int].1 + vs);
                        lemma_update_value_sorted(s0, i as int, nb);
                        assert(s0.update(i as int, (s0[i as int].0, nb)) == s0.update(
                            i as int,
                            (key, nb),
                        ));
                        lemma_total_count_update(s0, i as int, (key, nb));
                    }
                    self.count = self.count + n;
                },
                Err(i) => {
                    self.store.insert(i, (key, e));
                    proof {
                        assert(self@ =~= s0.insert(i as int, (key, vs)));
                        lemma_entry_insert_sorted(s0, key, vs);
                        assert(entry_insert(s0, key, vs) == s0.insert(i as int, (key, vs)));
                        lemma_total_count_insert(s0, i as int, (key, vs));
                    }
                    self.count = self.count + n;
                },
            }
        }
        if hold {
            let ev = BagStoreEvent::AddedVec { added: ev_vals.unwrap(), metadata };
            let ghost evg = ev;
            self.record_event(ev);
            proof {
                assert(bag_added_vec_event_matches(evg, vs, metadata));
                assert(self.events_model() == old(self).events_model().push(evg));
            }
        }
    }

    /// Empties every bag and records `ClearedAll`.
    pub fn clear(&mut self)
        requires
            old(self).wf(),
        ensures
            final(self).wf(),
            final(self)@ == Seq::<(K, Seq<T>)>::empty(),
            final(self).holds_events() == old(self).holds_events(),
            old(self).holds_events() ==> final(self).events_model() == old(
                self,
            ).events_model().push(BagStoreEvent::ClearedAll),
            !old(self).holds_events() ==> final(self).events_model() == old(self).events_model(),
    {
        self.store.clear();
        self.count = 0;
        proof {
            assert(self@ =~= Seq::<(K, Seq<T>)>::empty());
            assert(total_count(self@) == 0);
        }
        self.record_event(BagStoreEvent::ClearedAll);
    }

    /// Removes and returns the whole lowest-keyed bag, recording
    /// `RemovedVec`; `None` on an empty store.
    pub fn pop_first(&mut self) -> (r: Option<(K, Vec<T>)>)
        requires
            old(self).wf(),
        ensures
            final(self).wf(),
            final(self).holds_events() == old(self).holds_events(),
            old(self)@.len() == 0 ==> r is None && *final(self) == *old(self),
            old(self)@.len() > 0 ==> {
                &&& r is Some
                &&& r.unwrap().0 == old(self)@[0].0
                &&& r.unwrap().1@ == old(self)@[0].1
                &&& final(self)@ == old(self)@.drop_first()
            },
            old(self).holds_events() && old(self)@.len() > 0 ==> exists|
                ev: BagStoreEvent<K, T, M>,
            |
                {
                    &&& bag_removed_vec_event_matches(ev, old(self)@[0].1)
                    &&& final(self).events_model() == old(self).events_model().push(ev)
                },
            !(old(self).holds_events() && old(self)@.len() > 0) ==> final(self).events_model()
                == old(self).events_model(),
    {
        if self.store.len() == 0 {
            return None;
        }
        proof {
            lemma_total_count_bound(old(self)@, 0);
            lemma_total_count_remove(old(self)@, 0);
            lemma_remove_sorted(old(self)@, 0);
        }
        let entry = self.store.remove(0);
        proof {
            assert(entry.1@ == old(self)@[0].1);
            assert(self@ =~= old(self)@.remove(0));
            assert(old(self)@.remove(0) =~= old(self)@.drop_first());
        }
        self.count = self.count - entry.1.len();
        if self.has_event_log() {
            let c = Self::clone_values(&entry.1);
            let ev = BagStoreEvent::RemovedVec(c);
            let ghost evg = ev;
            self.record_event(ev);
            proof {
                assert(bag_removed_vec_event_matches(evg, old(self)@[0].1));
                assert(self.events_model() == old(self).events_model().push(evg));
            }
        }
        Some(entry)
    }

    /// Clones a batch of keyed values, for an event payload.
    fn clone_pairs(recs: &Vec<(K, T)>) -> (r: Vec<(K, T)>)
        ensures
            entries_cloned(recs@, r@),
    {
        let mut r: Vec<(K, T)> = Vec::new();
        let mut idx: usize = 0;
        while idx < recs.len()
            invariant
                idx <= recs@.len(),
                r@.len() == idx,
                forall|i: int|
                    0 <= i < idx ==> (#[trigger] r@[i]).0 == recs@[i].0 && cloned(
                        recs@[i].1,
                        r@[i].1,
                    ),
            decreases recs@.len() - idx,
        {
            let e = &recs[idx];
            r.push((e.0, e.1.clone()));
            idx += 1;
        }
        r
    }

    /// Appends every pair of `models` in order and records one
    /// `BulkAddedRemoved` event carrying clones of the whole batch.
    pub fn bulk_add(&mut self, models: Vec<(K, T)>, metadata: M)
        requires
            old(self).wf(),
            total_count(old(self)@) + models@.len() <= usize::MAX,
        ensures
            final(self).wf(),
            final(self)@ == bag_insert_all(old(self)@, models@),
            final(self).holds_events() == old(self).holds_events(),
            !old(self).holds_events() ==> final(self).events_model() == old(self).events_model(),
            old(self).holds_events() ==> exists|ev: BagStoreEvent<K, T, M>|
                {
                    &&& bag_bulk_event_matches(ev, models@, Seq::empty(), metadata)
                    &&& final(self).events_model() == old(self).events_model().push(ev)
                },
    {
        let hold = self.has_event_log();
        let added_ev: Option<Vec<(K, T)>> = if hold {
            Some(Self::clone_pairs(&models))
        } else {
            None
        };
        let ghost s0 = self@;
        let ghost recs0 = models@;
        let mut models = models;
        let ghost mut i: int = 0;
        proof {
            assert(models@ =~= recs0.skip(0));
        }
        while models.len() > 0
            invariant
                self.wf(),
                0 <= i <= recs0.len(),
                models@ == recs0.skip(i),
                self.holds_events() == old(self).holds_events(),
                self.events_model() == old(self).events_model(),
                bag_insert_all(s0, recs0) == bag_insert_all(self@, models@),
                total_count(self@) == total_count(s0) + i,
                total_count(s0) + recs0.len() <= usize::MAX,
            decreases models@.len(),
        {
            let ghost pre = self@;
            let ghost m_pre = models@;
            let (k, v) = models.remove(0);
            proof {
                assert(m_pre[0] == (k, v));
                assert(total_count(self@) < usize::MAX);
            }
            self.add_internal(k, v);
            proof {
                assert(models@ =~= m_pre.drop_first());
                assert(models@ =~= recs0.skip(i + 1));
                lemma_bag_add_one_count(pre, k, v);
                i = i + 1;
            }
        }
        proof {
            assert(bag_insert_all(self@, models@) == self@);
        }
        if hold {
            let ev = BagStoreEvent::BulkAddedRemoved {
                added: added_ev.unwrap(),
                removed: Vec::new(),
                metadata,
            };
            let ghost evg = ev;
            self.record_event(ev);
            proof {
                assert(entries_cloned(Seq::empty(), Seq::<(K, T)>::empty()));
                assert(bag_bulk_event_matches(evg, recs0, Seq::empty(), metadata));
                assert(self.events_model() == old(self).events_model().push(evg));
            }
        }
    }

    /// Removes the first occurrence of every pair of `models` in order,
    /// returning the pairs actually removed, and records one
    /// `BulkAddedRemoved` event whose removed side carries clones of them.
    pub fn bulk_remove(&mut self, models: &[(K, T)], metadata: M) -> (r: Vec<(K, T)>)
        requires
            old(self).wf(),
        ensures
            final(self).wf(),
            final(self)@ == bag_remove_all(old(self)@, models@),
            r@ == bag_removed_all(old(self)@, models@),
            final(self).holds_events() == old(self).holds_events(),
            !old(self).holds_events() ==> final(self).events_model() == old(self).events_model(),
            old(self).holds_events() ==> exists|ev: BagStoreEvent<K, T, M>|
                {
                    &&& bag_bulk_event_matches(
                        ev,
                        Seq::empty(),
                        bag_removed_all(old(self)@, models@),
                        metadata,
                    )
                    &&& final(self).events_model() == old(self).events_model().push(ev)
                },
    {
        let hold = self.has_event_log();
        let ghost s0 = self@;
        let mut removed: Vec<(K, T)> = Vec::new();
        let mut removed_ev: Vec<(K, T)> = Vec::new();
        let mut idx: usize = 0;
        proof {
            assert(models@.skip(0) =~= models@);
            assert(Seq::<(K, T)>::empty() + bag_removed_all(self@, models@) =~= bag_removed_all(
                self@,
                models@,
            ));
        }
        while idx < models.len()
            invariant
                self.wf(),
                idx <= models@.len(),
                self.holds_events() == old(self).holds_events(),
                self.events_model() == old(self).events_model(),
                hold == self.holds_events(),
                bag_remove_all(s0, models@) == bag_remove_all(self@, models@.skip(idx as int)),
                bag_removed_all(s0, models@) == removed@ + bag_removed_all(
                    self@,
                    models@.skip(idx as int),
                ),
                hold ==> entries_cloned(removed@, removed_ev@),
            decreases models@.len() - idx,
        {
            let ghost rest = models@.skip(idx as int);
            let m = &models[idx];
            let d = self.remove_internal(&m.0, &m.1);
            proof {
                assert(rest[0] == models@[idx as int]);
                assert(rest.drop_first() =~= models@.skip(idx as int + 1));
            }
            match d {
                Some(x) => {
                    let k = m.0;
                    if hold {
                        removed_ev.push((k, x.clone()));
                    }
                    proof {
                        assert(removed@.push((k, x)) + bag_removed_all(
                            self@,
                            models@.skip(idx as int + 1),
                        ) =~= removed@ + (seq![(k, x)] + bag_removed_all(
                            self@,
                            models@.skip(idx as int + 1),
                        )));
                    }
                    removed.push((k, x));
                },
                None => {},
            }
            idx += 1;
        }
        proof {
            assert(models@.skip(models@.len() as int) =~= Seq::<(K, T)>::empty());
            assert(bag_remove_all(self@, models@.skip(idx as int)) == self@);
            assert(removed@ + bag_removed_all(self@, models@.skip(idx as int)) =~= removed@);
        }
        if hold {
            let ev = BagStoreEvent::BulkAddedRemoved {
                added: Vec::new(),
                removed: removed_ev,
                metadata,
            };
            let ghost evg = ev;
            self.record_event(ev);
            proof {
                assert(entries_cloned(Seq::empty(), Seq::<(K, T)>::empty()));
                assert(bag_bulk_event_matches(
                    evg,
                    Seq::empty(),
                    bag_removed_all(s0, models@),
                    metadata,
                ));
                assert(self.events_model() == old(self).events_model().push(evg));
            }
        }
        removed
    }

    /// Batch move of individual values: first removes every `from`
    /// `(key, value)` pair of `from_to`, then appends every destination pair
    /// whose source was present. Removals fully precede insertions. Records
    /// one `Changed` event carrying the realized moves.
    pub fn change(&mut self, from_to: Vec<((K, T), (K, T))>, metadata: M)
        requires
            old(self).wf(),
        ensures
            final(self).wf(),
            final(self)@ == bag_insert_all(
                bag_change_phase1(old(self)@, from_to@),
                bag_change_insertions(old(self)@, from_to@),
            ),
            final(self).holds_events() == old(self).holds_events(),
            !old(self).holds_events() ==> final(self).events_model() == old(self).events_model(),
            old(self).holds_events() ==> exists|ev: BagStoreEvent<K, T, M>|
                {
                    &&& bag_changed_event_matches(
                        ev,
                        bag_change_realized(old(self)@, from_to@),
                        metadata,
                    )
                    &&& final(self).events_model() == old(self).events_model().push(ev)
                },
    {
        let hold = self.has_event_log();
        let ghost s0 = self@;
        let ghost ft0 = from_to@;
        let mut from_to = from_to;
        let mut pending: Vec<(K, T)> = Vec::new();
        let mut realized_ev: Vec<((K, T), (K, T))> = Vec::new();
        let ghost mut done: Seq<((K, T), (K, T))> = Seq::empty();
        while from_to.len() > 0
            invariant
                self.wf(),
                self.holds_events() == old(self).holds_events(),
                self.events_model() == old(self).events_model(),
                hold == self.holds_events(),
                bag_change_phase1(s0, ft0) == bag_change_phase1(self@, from_to@),
                bag_change_realized(s0, ft0) == done + bag_change_realized(self@, from_to@),
                pending@ == done.map_values(|p: ((K, T), (K, T))| p.1),
                total_count(self@) + done.len() == total_count(s0),
                hold ==> pairs_cloned(done, realized_ev@),
            decreases from_to@.len(),
        {
            let ghost pre = self@;
            let ghost ft_pre = from_to@;
            let head = from_to.remove(0);
            let (from, to) = head;
            let (fk, fv) = from;
            let (tk, tv) = to;
            let d = self.remove_internal(&fk, &fv);
            proof {
                assert(ft_pre[0] == ((fk, fv), (tk, tv)));
                assert(from_to@ =~= ft_pre.drop_first());
                lemma_bag_remove_one_count(pre, fk, fv);
            }
            match d {
                Some(x) => {
                    let ghost step = ((fk, x), (tk, tv));
                    if hold {
                        let c0 = x.clone();
                        let c1 = tv.clone();
                        let ghost evpair = ((fk, c0), (tk, c1));
                        let ghost rev_pre = realized_ev@;
                        realized_ev.push(((fk, c0), (tk, c1)));
                        proof {
                            assert(realized_ev@ == rev_pre.push(evpair));
                            assert forall|i: int| 0 <= i < done.push(step).len() implies {
                                &&& (#[trigger] realized_ev@[i]).0.0 == done.push(step)[i].0.0
                                &&& cloned(done.push(step)[i].0.1, realized_ev@[i].0.1)
                                &&& realized_ev@[i].1.0 == done.push(step)[i].1.0
                                &&& cloned(done.push(step)[i].1.1, realized_ev@[i].1.1)
                            } by {
                                if i < done.len() {
                                    assert(realized_ev@[i] == rev_pre[i]);
                                    assert(done.push(step)[i] == done[i]);
                                } else {
                                    assert(realized_ev@[i] == evpair);
                                    assert(done.push(step)[i] == step);
                                }
                            }
                            assert(pairs_cloned(done.push(step), realized_ev@));
                        }
                    }
                    proof {
                        assert(done.push(step) + bag_change_realized(self@, from_to@) =~= done + (
                        seq![step] + bag_change_realized(self@, from_to@)));
                        assert((done.push(step)).map_values(|p: ((K, T), (K, T))| p.1)
                            =~= done.map_values(|p: ((K, T), (K, T))| p.1).push((tk, tv)));
                        done = done.push(step);
                    }
                    pending.push((tk, tv));
                },
                None => {},
            }
        }
        proof {
            assert(bag_change_phase1(self@, from_to@) == self@);
            assert(bag_change_realized(self@, from_to@) =~= Seq::<((K, T), (K, T))>::empty());
            assert(done + bag_change_realized(self@, from_to@) =~= done);
            assert(done == bag_change_realized(s0, ft0));
            assert(pending@ == bag_change_insertions(s0, ft0));
        }
        let ghost mid = self@;
        let ghost tos = pending@;
        let mut pending = pending;
        let ghost mut j: int = 0;
        proof {
            assert(pending@ =~= tos.skip(0));
        }
        while pending.len() > 0
            invariant
                self.wf(),
                0 <= j <= tos.len(),
                pending@ == tos.skip(j),
                self.holds_events() == old(self).holds_events(),
                self.events_model() == old(self).events_model(),
                bag_insert_all(mid, tos) == bag_insert_all(self@, pending@),
                total_count(self@) + pending@.len() <= total_count(s0),
                total_count(s0) <= usize::MAX,
            decreases pending@.len(),
        {
            let ghost pre = self@;
            let ghost p_pre = pending@;
            let (k, v) = pending.remove(0);
            proof {
                assert(p_pre[0] == (k, v));
                assert(total_count(self@) < usize::MAX);
            }
            self.add_internal(k, v);
            proof {
                assert(pending@ =~= p_pre.drop_first());
                assert(pending@ =~= tos.skip(j + 1));
                lemma_bag_add_one_count(pre, k, v);
                j = j + 1;
            }
        }
        proof {
            assert(bag_insert_all(self@, pending@) == self@);
        }
        if hold {
            let ev = BagStoreEvent::Changed {
                from_to: realized_ev,
                removed: Vec::new(),
                metadata,
            };
            let ghost evg = ev;
            self.record_event(ev);
            proof {
                assert(bag_changed_event_matches(evg, bag_change_realized(s0, ft0), metadata));
                assert(self.events_model() == old(self).events_model().push(evg));
            }
        }
    }

    /// Resolves `start` and `end` to entry positions by binary search and
    /// returns the contiguous sub-slice of keyed bags inside the bounds.
    pub fn range_vec(&self, start: KeyBound<K>, end: KeyBound<K>) -> (r: &[(K, Vec<T>)])
        requires
            self.wf(),
            self@.len() > 0 ==> range_start_idx(self@, start) <= range_end_idx(self@, end),
        ensures
            self@.len() == 0 ==> bags_view(r@) == Seq::<(K, Seq<T>)>::empty(),
            self@.len() > 0 ==> {
                &&& 0 <= range_start_idx(self@, start)
                &&& range_end_idx(self@, end) <= self@.len()
                &&& bags_view(r@) == self@.subrange(
                    range_start_idx(self@, start),
                    range_end_idx(self@, end),
                )
            },
    {
        if self.store.len() == 0 {
            let r = slice_subrange(self.store.as_slice(), 0, 0);
            proof {
                assert(bags_view(r@) =~= Seq::<(K, Seq<T>)>::empty());
            }
            return r;
        }
        let a: usize = match start {
            KeyBound::Unbounded => 0,
            KeyBound::Included(k) => match self.find_internal(k) {
                Ok(i) => i,
                Err(i) => i,
            },
            KeyBound::Excluded(k) => match self.find_internal(k) {
                Ok(i) => i + 1,
                Err(i) => i,
            },
        };
        let b: usize = match end {
            KeyBound::Unbounded => self.store.len(),
            KeyBound::Included(k) => match self.find_internal(k) {
                Ok(i) => i + 1,
                Err(i) => i,
            },
            KeyBound::Excluded(k) => match self.find_internal(k) {
                Ok(i) => i,
                Err(i) => i,
            },
        };
        let r = slice_subrange(self.store.as_slice(), a, b);
        proof {
            assert(bags_view(r@) =~= self@.subrange(a as int, b as int));
        }
        r
    }

    /// A flattening iterator over the entries inside the bounds, yielding
    /// `(key, value)` pairs in key order and insertion order per key.
    pub fn range(&self, start: KeyBound<K>, end: KeyBound<K>) -> (r: RangeIter<'_, K, T>)
        requires
            self.wf(),
            self@.len() > 0 ==> range_start_idx(self@, start) <= range_end_idx(self@, end),
        ensures
            r.wf_iter(),
            self@.len() == 0 ==> r.remaining() == Seq::<(K, T)>::empty(),
            self@.len() > 0 ==> r.remaining() == flatten_bags(
                self@.subrange(range_start_idx(self@, start), range_end_idx(self@, end)),
            ),
    {
        let entries = self.range_vec(start, end);
        let r = RangeIter { entries, outer: 0, inner: 0 };
        proof {
            let a = range_start_idx(self@, start);
            let b = range_end_idx(self@, end);
            assert forall|i: int| 0 <= i < entries@.len() implies (#[trigger] entries@[i]).1@.len()
                > 0 by {
                assert(bags_view(entries@)[i] == (entries@[i].0, entries@[i].1@));
                assert(bags_view(entries@).len() == entries@.len());
                if self@.len() == 0 {
                    assert(false);
                } else {
                    assert(bags_view(entries@) == self@.subrange(a, b));
                    assert(self@.subrange(a, b)[i] == self@[a + i]);
                    assert(self@[a + i].1.len() > 0);
                }
            }
            assert(bags_view(entries@).skip(0) =~= bags_view(entries@));
            assert(flatten_bags(bags_view(entries@)).skip(0) =~= flatten_bags(
                bags_view(entries@),
            ));
        }
        r
    }

    /// A flattening iterator over all entries, yielding `(key, value)` pairs
    /// in key order and insertion order per key.
    pub fn iter(&self) -> (r: RangeIter<'_, K, T>)
        requires
            self.wf(),
        ensures
            r.wf_iter(),
            r.remaining() == flatten_bags(self@),
    {
        let entries = self.store.as_slice();
        let r = RangeIter { entries, outer: 0, inner: 0 };
        proof {
            assert(bags_view(entries@) == self@);
            assert forall|i: int| 0 <= i < entries@.len() implies (#[trigger] entries@[i]).1@.len()
                > 0 by {
                assert(bags_view(entries@)[i] == (entries@[i].0, entries@[i].1@));
                assert(self@[i].1.len() > 0);
            }
            assert(bags_view(entries@).skip(0) =~= bags_view(entries@));
            assert(flatten_bags(bags_view(entries@)).skip(0) =~= flatten_bags(
                bags_view(entries@),
            ));
        }
        r
    }
}

/// A flattening cursor over a slice of keyed bags: yields each `(key,
/// value)` pair in key order, in insertion order within one key.
pub struct RangeIter<'a, K, T> {
    entries: &'a [(K, Vec<T>)],
    outer: usize,
    inner: usize,
}

impl<'a, K: KeyOrd, T: ValueEq + Clone> RangeIter<'a, K, T> {
    /// Every bag is non-empty and the cursor sits on a value or at the end.
    pub closed spec fn wf_iter(self) -> bool {
        &&& (forall|i: int|
            0 <= i < self.entries@.len() ==> (#[trigger] self.entries@[i]).1@.len() > 0)
        &&& (self.outer as int) <= self.entries@.len()
        &&& ((self.outer as int) < self.entries@.len() ==> (self.inner as int)
            < self.entries@[self.outer as int].1@.len())
        &&& ((self.outer as int) == self.entries@.len() ==> self.inner == 0)
    }

    /// The `(key, value)` pairs not yet yielded.
    pub closed spec fn remaining(self) -> Seq<(K, T)> {
        flatten_bags(bags_view(self.entries@).skip(self.outer as int)).skip(self.inner as int)
    }

    /// Yields the next `(key, value)` pair, stepping into the next bag when
    /// the current one is drained; `None` once every pair has been yielded.
    pub fn next(&mut self) -> (r: Option<(K, &'a T)>)
        requires
            old(self).wf_iter(),
        ensures
            final(self).wf_iter(),
            old(self).remaining().len() == 0 ==> r is None && *final(self) == *old(self),
            old(self).remaining().len() > 0 ==> {
                &&& r is Some
                &&& r.unwrap().0 == old(self).remaining()[0].0
                &&& *r.unwrap().1 == old(self).remaining()[0].1
                &&& final(self).remaining() == old(self).remaining().drop_first()
            },
    {
        let es: &'a [(K, Vec<T>)] = self.entries;
        let n = es.len();
        let ghost v_all = bags_view(self.entries@);
        let ghost w = v_all.skip(self.outer as int);
        if self.outer >= n {
            proof {
                assert(w =~= Seq::<(K, Seq<T>)>::empty());
            }
            return None;
        }
        let e = &es[self.outer];
        let k = e.0;
        let ghost pairs0 = bag_pairs(w[0]);
        proof {
            assert(w[0] == v_all[self.outer as int]);
            assert(v_all[self.outer as int] == (
                self.entries@[self.outer as int].0,
                self.entries@[self.outer as int].1@,
            ));
            assert(flatten_bags(w) == pairs0 + flatten_bags(w.drop_first()));
            assert(pairs0[self.inner as int] == (k, e.1@[self.inner as int]));
            assert(old(self).remaining()[0] == (pairs0 + flatten_bags(w.drop_first()))[
                self.inner as int]);
        }
        let item = &e.1[self.inner];
        let blen = e.1.len();
        proof {
            assert(*e == self.entries@[self.outer as int]);
            assert((self.inner as int) < e.1@.len());
        }
        if self.inner + 1 < blen {
            let ghost rem_pre = old(self).remaining();
            self.inner = self.inner + 1;
            proof {
                assert(final(self).remaining() =~= rem_pre.drop_first());
            }
        } else {
            let ghost rem_pre = old(self).remaining();
            self.outer = self.outer + 1;
            self.inner = 0;
            proof {
                assert(w.drop_first() =~= v_all.skip(self.outer as int));
                assert(self.remaining() =~= flatten_bags(w.drop_first()));
                assert(rem_pre =~= (pairs0 + flatten_bags(w.drop_first())).skip(
                    pairs0.len() - 1,
                ));
                assert(rem_pre.drop_first() =~= flatten_bags(w.drop_first()));
            }
        }
        Some((k, item))
    }
}

} // verus!
