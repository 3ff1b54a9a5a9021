//! Single-value ordered store: a sequence of `(key, value)` entries kept
//! strictly ascending by key, with optional recording of every mutation as a
//! structured change event.
use vstd::prelude::*;

verus! {

use core::cmp::Ordering;
use vstd::pervasive::cloned;
use vstd::slice::slice_subrange;
use crate::key_order::{KeyOrd, key_lt, lemma_key_lt_trans, lemma_key_lt_asym};
use crate::sorted_seq::{
    sorted_entries, has_key, key_pos, entry_insert, displaced_by_insert, entry_remove,
    removed_by_remove, bulk_insert, bulk_insert_displaced, bulk_remove_keys, bulk_removed,
    mask_keep, mask_drop, lemma_key_pos_split, lemma_key_pos_found, lemma_key_pos_characterize,
    lemma_remove_sorted, lemma_entry_insert_sorted, lemma_update_value_sorted, lemma_mask_sorted,
    lemma_sorted_unique_keys,
};

/// One recorded mutation of a [`Store`], tagged with caller-supplied
/// metadata. Values carried by an event are clones of the values involved.
#[derive(Clone, Debug)]
pub enum StoreEvent<K, T, M> {
    Added { added: T, metadata: M },
    Removed(T),
    ClearedAll,
    BulkAddedRemoved { added: Vec<(K, T)>, removed: Vec<(K, T)>, metadata: M },
    Changed { from_to: Vec<((K, T), (K, T))>, removed: Vec<(K, T)>, metadata: M },
}

/// One end of a key range: unbounded, or bounded inclusively or exclusively.
#[derive(Clone, Copy, Debug)]
pub enum KeyBound<K> {
    Unbounded,
    Included(K),
    Excluded(K),
}

/// `b` carries the same keys as `a` and a clone of each value of `a`.
pub open spec fn entries_cloned<K, T: Clone>(a: Seq<(K, T)>, b: Seq<(K, T)>) -> bool {
    &&& b.len() == a.len()
    &&& forall|i: int|
        0 <= i < a.len() ==> (#[trigger] b[i]).0 == a[i].0 && cloned(a[i].1, b[i].1)
}

/// `b` carries the same entry pairs as `a`, with each value cloned.
pub open spec fn pairs_cloned<K, T: Clone>(
    a: Seq<((K, T), (K, T))>,
    b: Seq<((K, T), (K, T))>,
) -> bool {
    &&& b.len() == a.len()
    &&& forall|i: int|
        0 <= i < a.len() ==> {
            &&& (#[trigger] b[i]).0.0 == a[i].0.0
            &&& cloned(a[i].0.1, b[i].0.1)
            &&& b[i].1.0 == a[i].1.0
            &&& cloned(a[i].1.1, b[i].1.1)
        }
}

/// The event is `Added` carrying a clone of `v` and the metadata `m`.
pub open spec fn added_event_matches<K, T: Clone, M>(e: StoreEvent<K, T, M>, v: T, m: M) -> bool {
    match e {
        StoreEvent::Added { added: a, metadata: md } => cloned(v, a) && md == m,
        _ => false,
    }
}

/// The event is `Removed` carrying a clone of `v`.
pub open spec fn removed_event_matches<K, T: Clone, M>(e: StoreEvent<K, T, M>, v: T) -> bool {
    match e {
        StoreEvent::Removed(x) => cloned(v, x),
        _ => false,
    }
}

/// The event is `BulkAddedRemoved` carrying clones of `added` and `removed`
/// and the metadata `m`.
pub open spec fn bulk_event_matches<K, T: Clone, M>(
    e: StoreEvent<K, T, M>,
    added: Seq<(K, T)>,
    removed: Seq<(K, T)>,
    m: M,
) -> bool {
    match e {
        StoreEvent::BulkAddedRemoved { added: a, removed: r, metadata: md } => {
            &&& entries_cloned(added, a@)
            &&& entries_cloned(removed, r@)
            &&& md == m
        },
        _ => false,
    }
}

/// The event is `Changed` carrying clones of the realized moves `from_to`
/// and of the `removed` entries, and the metadata `m`.
pub open spec fn changed_event_matches<K, T: Clone, M>(
    e: StoreEvent<K, T, M>,
    from_to: Seq<((K, T), (K, T))>,
    removed: Seq<(K, T)>,
    m: M,
) -> bool {
    match e {
        StoreEvent::Changed { from_to: ft, removed: r, metadata: md } => {
            &&& pairs_cloned(from_to, ft@)
            &&& entries_cloned(removed, r@)
            &&& md == m
        },
        _ => false,
    }
}

/// Index at which a range beginning with bound `b` starts in `s`.
pub open spec fn range_start_idx<K: KeyOrd, T>(s: Seq<(K, T)>, b: KeyBound<K>) -> int {
    match b {
        KeyBound::Unbounded => 0,
        KeyBound::Included(k) => key_pos(s, k),
        KeyBound::Excluded(k) => key_pos(s, k) + if has_key(s, k) {
            1int
        } else {
            0int
        },
    }
}

/// Index one past the last entry of a range ending with bound `b` in `s`.
pub open spec fn range_end_idx<K: KeyOrd, T>(s: Seq<(K, T)>, b: KeyBound<K>) -> int {
    match b {
        KeyBound::Unbounded => s.len() as int,
        KeyBound::Included(k) => key_pos(s, k) + if has_key(s, k) {
            1int
        } else {
            0int
        },
        KeyBound::Excluded(k) => key_pos(s, k),
    }
}

/// The sequence after the removal phase of a batch move: every `from` key of
/// `ft` is removed, first to last.
pub open spec fn change_phase1<K: KeyOrd, T>(s: Seq<(K, T)>, ft: Seq<(K, (K, T))>) -> Seq<(K, T)>
    decreases ft.len(),
{
    if ft.len() == 0 {
        s
    } else {
        change_phase1(entry_remove(s, ft[0].0), ft.drop_first())
    }
}

/// The realized moves of a batch move: for every `from` key that was
/// present, the removed entry paired with its destination.
pub open spec fn change_realized<K: KeyOrd, T>(s: Seq<(K, T)>, ft: Seq<(K, (K, T))>) -> Seq<
    ((K, T), (K, T)),
>
    decreases ft.len(),
{
    if ft.len() == 0 {
        Seq::empty()
    } else {
        let rest = change_realized(entry_remove(s, ft[0].0), ft.drop_first());
        match removed_by_remove(s, ft[0].0) {
            Some(e) => seq![(e, ft[0].1)] + rest,
            None => rest,
        }
    }
}

/// The destination entries of the realized moves.
pub open spec fn change_insertions<K: KeyOrd, T>(s: Seq<(K, T)>, ft: Seq<(K, (K, T))>) -> Seq<
    (K, T),
> {
    change_realized(s, ft).map_values(|p: ((K, T), (K, T))| p.1)
}

/// Outcome of an upsert through a caller-supplied function that may
/// decline: `out` is what the function returned on the previous value under
/// `k`. A `Some` result is written under `k` and recorded, a `None` result
/// changes nothing.
pub open spec fn upsert_outcome<K: KeyOrd, T: Clone, M>(
    pre_entries: Seq<(K, T)>,
    pre_events: Seq<StoreEvent<K, T, M>>,
    pre_holds: bool,
    post_entries: Seq<(K, T)>,
    post_events: Seq<StoreEvent<K, T, M>>,
    k: K,
    m: M,
    out: Option<T>,
) -> bool {
    match out {
        Some(nv) => {
            &&& post_entries == entry_insert(pre_entries, k, nv)
            &&& (pre_holds && has_key(pre_entries, k) ==> exists|e: StoreEvent<K, T, M>|
                {
                    &&& changed_event_matches(
                        e,
                        seq![((k, pre_entries[key_pos(pre_entries, k)].1), (k, nv))],
                        Seq::empty(),
                        m,
                    )
                    &&& post_events == pre_events.push(e)
                })
            &&& (pre_holds && !has_key(pre_entries, k) ==> exists|e: StoreEvent<K, T, M>|
                {
                    &&& added_event_matches(e, nv, m)
                    &&& post_events == pre_events.push(e)
                })
            &&& (!pre_holds ==> post_events == pre_events)
        },
        None => {
            &&& post_entries == pre_entries
            &&& post_events == pre_events
        },
    }
}

/// A sorted sequence of `(key, value)` entries with unique keys, found by
/// binary search, plus an optional log of change events.
pub struct Store<K: KeyOrd, T, M> {
    store: Vec<(K, T)>,
    events: Option<Vec<StoreEvent<K, T, M>>>,
}

impl<K: KeyOrd, T, M> View for Store<K, T, M> {
    type V = Seq<(K, T)>;

    closed spec fn view(&self) -> Seq<(K, T)> {
        self.store@
    }
}

impl<K: KeyOrd, T, M> Store<K, T, M> where T: Clone {
    /// The entries are strictly ascending by key.
    pub open spec fn wf(self) -> bool {
        sorted_entries(self@)
    }

    /// Whether this store records change events.
    pub closed spec fn holds_events(self) -> bool {
        self.events is Some
    }

    /// The recorded events; empty when recording is disabled.
    pub closed spec fn events_model(self) -> Seq<StoreEvent<K, T, M>> {
        if self.events is Some {
            self.events.unwrap()@
        } else {
            Seq::empty()
        }
    }

    /// Creates an empty store; `hold_events` decides whether mutations are
    /// recorded as events.
    pub fn new(hold_events: bool) -> (r: Self)
        ensures
            r.wf(),
            r@ == Seq::<(K, T)>::empty(),
            r.holds_events() == hold_events,
            r.events_model() == Seq::<StoreEvent<K, T, M>>::empty(),
    {
        Store {
            store: Vec::new(),
            events: if hold_events {
                Some(Vec::new())
            } else {
                None
            },
        }
    }

    /// Creates an empty store with space for `capacity` entries.
    pub fn with_capacity(capacity: usize, hold_events: bool) -> (r: Self)
        ensures
            r.wf(),
            r@ == Seq::<(K, T)>::empty(),
            r.holds_events() == hold_events,
            r.events_model() == Seq::<StoreEvent<K, T, M>>::empty(),
    {
        Store {
            store: Vec::with_capacity(capacity),
            events: if hold_events {
                Some(Vec::new())
            } else {
                None
            },
        }
    }

    /// Whether this store records change events.
    pub fn has_event_log(&self) -> (r: bool)
        ensures
            r == self.holds_events(),
    {
        self.events.is_some()
    }

    /// Appends `e` to the event log when one is held; otherwise does
    /// nothing.
    fn record_event(&mut self, e: StoreEvent<K, T, M>)
        ensures
            final(self)@ == old(self)@,
            final(self).holds_events() == old(self).holds_events(),
            old(self).holds_events() ==> final(self).events_model() == old(
                self,
            ).events_model().push(e),
            !old(self).holds_events() ==> *final(self) == *old(self),
    {
        let evs = self.events.take();
        match evs {
            Some(mut v) => {
                v.push(e);
                self.events = Some(v);
            },
            None => {},
        }
    }

    /// Number of entries.
    pub fn len(&self) -> (r: usize)
        ensures
            r == self@.len(),
    {
        self.store.len()
    }

    /// Whether the store holds no entries.
    pub fn is_empty(&self) -> (r: bool)
        ensures
            r == (self@.len() == 0),
    {
        self.store.len() == 0
    }

    /// The entries as a sorted slice.
    pub fn as_slice(&self) -> (r: &[(K, T)])
        ensures
            r@ == self@,
    {
        self.store.as_slice()
    }

    /// The entry with the greatest key, if any.
    pub fn peek_last(&self) -> (r: Option<&(K, T)>)
        ensures
            self@.len() == 0 ==> r is None,
            self@.len() > 0 ==> r is Some && *r.unwrap() == self@[self@.len() - 1],
    {
        if self.store.len() == 0 {
            None
        } else {
            Some(&self.store[self.store.len() - 1])
        }
    }

    /// The entry with the least key, if any.
    pub fn head_entry_option(&self) -> (r: Option<&(K, T)>)
        ensures
            self@.len() == 0 ==> r is None,
            self@.len() > 0 ==> r is Some && *r.unwrap() == self@[0],
    {
        if self.store.len() == 0 {
            None
        } else {
            Some(&self.store[0])
        }
    }

    /// Binary search for `key`: `Ok(i)` when entry `i` carries `key`,
    /// `Err(i)` with the position at which `key` would be inserted.
    pub fn index(&self, key: K) -> (r: Result<usize, usize>)
        requires
            self.wf(),
        ensures
            match r {
                Ok(i) => {
                    &&& has_key(self@, key)
                    &&& i == key_pos(self@, key)
                    &&& i < self@.len()
                    &&& self@[i as int].0 == key
                },
                Err(i) => {
                    &&& !has_key(self@, key)
                    &&& i == key_pos(self@, key)
                    &&& i <= self@.len()
                },
            },
    {
        let mut lo: usize = 0;
        let mut hi: usize = self.store.len();
        while lo < hi
            invariant
                self.wf(),
                lo <= hi <= self@.len(),
                forall|j: int| 0 <= j < lo ==> key_lt((#[trigger] self@[j]).0, key),
                forall|j: int| hi <= j < self@.len() ==> !key_lt((#[trigger] self@[j]).0, key),
            decreases hi - lo,
        {
            let mid = lo + (hi - lo) / 2;
            let mk = self.store[mid].0;
            match mk.key_cmp(&key) {
                Ordering::Less => {
                    proof {
                        assert forall|j: int| 0 <= j < mid + 1 implies key_lt(
                            (#[trigger] self@[j]).0,
                            key,
                        ) by {
                            if j < mid {
                                assert(key_lt(self@[j].0, self@[mid as int].0));
                                lemma_key_lt_trans(self@[j].0, self@[mid as int].0, key);
                            }
                        }
                    }
                    lo = mid + 1;
                },
                Ordering::Equal => {
                    proof {
                        assert forall|j: int| mid <= j < self@.len() implies !key_lt(
                            (#[trigger] self@[j]).0,
                            key,
                        ) by {
                            if j > mid && key_lt(self@[j].0, key) {
                                assert(key_lt(self@[mid as int].0, self@[j].0));
                                lemma_key_lt_trans(self@[mid as int].0, self@[j].0, key);
                            }
                        }
                    }
                    hi = mid;
                },
                Ordering::Greater => {
                    proof {
                        assert(!key_lt(self@[mid as int].0, key)) by {
                            if key_lt(self@[mid as int].0, key) {
                                K::lemma_le_antisym(self@[mid as int].0, key);
                            }
                        }
                        assert forall|j: int| mid <= j < self@.len() implies !key_lt(
                            (#[trigger] self@[j]).0,
                            key,
                        ) by {
                            if j > mid && key_lt(self@[j].0, key) {
                                assert(key_lt(self@[mid as int].0, self@[j].0));
                                lemma_key_lt_trans(self@[mid as int].0, self@[j].0, key);
                            }
                        }
                    }
                    hi = mid;
                },
            }
        }
        proof {
            lemma_key_pos_characterize(self@, key, lo as int);
        }
        if lo < self.store.len() {
            let lk = self.store[lo].0;
            match lk.key_cmp(&key) {
                Ordering::Equal => {
                    proof {
                        assert(has_key(self@, key)) by {
                            assert(0 <= lo < self@.len() && self@[lo as int].0 == key);
                        }
                    }
                    Ok(lo)
                },
                _ => {
                    proof {
                        if has_key(self@, key) {
                            lemma_key_pos_found(self@, key);
                            assert(false);
                        }
                    }
                    Err(lo)
                },
            }
        } else {
            proof {
                if has_key(self@, key) {
                    lemma_key_pos_found(self@, key);
                    assert(false);
                }
            }
            Err(lo)
        }
    }

    /// Binary search for `*key`, as [`Store::index`].
    pub fn find(&self, key: &K) -> (r: Result<usize, usize>)
        requires
            self.wf(),
        ensures
            match r {
                Ok(i) => {
                    &&& has_key(self@, *key)
                    &&& i == key_pos(self@, *key)
                    &&& i < self@.len()
                    &&& self@[i as int].0 == *key
                },
                Err(i) => {
                    &&& !has_key(self@, *key)
                    &&& i == key_pos(self@, *key)
                    &&& i <= self@.len()
                },
            },
    {
        self.index(*key)
    }

    /// Writes `value` under `key` without recording an event: replaces in
    /// place when the key is present, inserts at the sorted position
    /// otherwise, and returns any displaced value.
    fn add_internal(&mut self, key: K, value: T) -> (r: Option<T>)
        requires
            old(self).wf(),
        ensures
            final(self).wf(),
            final(self)@ == entry_insert(old(self)@, key, value),
            r == displaced_by_insert(old(self)@, key),
            final(self).holds_events() == old(self).holds_events(),
            final(self).events_model() == old(self).events_model(),
    {
        match self.index(key) {
            Ok(i) => {
                let old_e = self.store.remove(i);
                self.store.insert(i, (key, value));
                proof {
                    assert(self.store@ =~= old(self)@.update(i as int, (key, value)));
                    lemma_entry_insert_sorted(old(self)@, key, value);
                }
                Some(old_e.1)
            },
            Err(i) => {
                self.store.insert(i, (key, value));
                proof {
                    lemma_entry_insert_sorted(old(self)@, key, value);
                }
                None
            },
        }
    }

    /// Removes the entry with key `*key` without recording an event.
    fn remove_internal(&mut self, key: &K) -> (r: Option<(K, T)>)
        requires
            old(self).wf(),
        ensures
            final(self).wf(),
            final(self)@ == entry_remove(old(self)@, *key),
            r == removed_by_remove(old(self)@, *key),
            final(self).holds_events() == old(self).holds_events(),
            final(self).events_model() == old(self).events_model(),
    {
        match self.index(*key) {
            Ok(i) => {
                let e = self.store.remove(i);
                proof {
                    lemma_remove_sorted(old(self)@, i as int);
                }
                Some(e)
            },
            Err(_) => None,
        }
    }

    /// Writes `value` under `key`: replaces in place when the key is
    /// present (returning the displaced value and recording `Removed` then
    /// `Added`), inserts otherwise (recording `Added` only).
    pub fn add(&mut self, key: K, value: T, metadata: M) -> (r: Option<T>)
        requires
            old(self).wf(),
        ensures
            final(self).wf(),
            final(self)@ == entry_insert(old(self)@, key, value),
            r == displaced_by_insert(old(self)@, key),
            final(self).holds_events() == old(self).holds_events(),
            !old(self).holds_events() ==> final(self).events_model() == old(self).events_model(),
            old(self).holds_events() && has_key(old(self)@, key) ==> exists|
                e1: StoreEvent<K, T, M>,
                e2: StoreEvent<K, T, M>,
            |
                {
                    &&& removed_event_matches(e1, old(self)@[key_pos(old(self)@, key)].1)
                    &&& added_event_matches(e2, value, metadata)
                    &&& final(self).events_model() == old(self).events_model().push(e1).push(e2)
                },
            old(self).holds_events() && !has_key(old(self)@, key) ==> exists|
                e: StoreEvent<K, T, M>,
            |
                {
                    &&& added_event_matches(e, value, metadata)
                    &&& final(self).events_model() == old(self).events_model().push(e)
                },
    {
        let hold = self.has_event_log();
        let ev_new: Option<T> = if hold {
            Some(value.clone())
        } else {
            None
        };
        let displaced = self.add_internal(key, value);
        match displaced {
            Some(d) => {
                if hold {
                    let rv = d.clone();
                    self.record_event(StoreEvent::Removed(rv));
                    self.record_event(StoreEvent::Added { added: ev_new.unwrap(), metadata });
                }
                Some(d)
            },
            None => {
                if hold {
                    let ev = StoreEvent::Added { added: ev_new.unwrap(), metadata };
                    let ghost evg = ev;
                    self.record_event(ev);
                    proof {
                        assert(added_event_matches(evg, value, metadata));
                        assert(self.events_model() == old(self).events_model().push(evg));
                    }
                }
                None
            },
        }
    }

    /// Removes the entry with key `*key` and records `Removed`; a missing
    /// key is a no-op that records nothing.
    pub fn remove(&mut self, key: &K) -> (r: Option<(K, T)>)
        requires
            old(self).wf(),
        ensures
            final(self).wf(),
            final(self)@ == entry_remove(old(self)@, *key),
            r == removed_by_remove(old(self)@, *key),
            final(self).holds_events() == old(self).holds_events(),
            old(self).holds_events() && has_key(old(self)@, *key) ==> exists|
                e: StoreEvent<K, T, M>,
            |
                {
                    &&& removed_event_matches(e, old(self)@[key_pos(old(self)@, *key)].1)
                    &&& final(self).events_model() == old(self).events_model().push(e)
                },
            !(old(self).holds_events() && has_key(old(self)@, *key))
                ==> final(self).events_model() == old(self).events_model(),
    {
        let removed = self.remove_internal(key);
        match removed {
            Some(e) => {
                if self.has_event_log() {
                    let rv = e.1.clone();
                    self.record_event(StoreEvent::Removed(rv));
                }
                Some(e)
            },
            None => None,
        }
    }

    /// Removes and returns the entry with the least key, recording
    /// `Removed`; `None` on an empty store.
    pub fn pop_first(&mut self) -> (r: Option<(K, T)>)
        requires
            old(self).wf(),
        ensures
            final(self).wf(),
            final(self).holds_events() == old(self).holds_events(),
            old(self)@.len() == 0 ==> r is None && *final(self) == *old(self),
            old(self)@.len() > 0 ==> r == Some(old(self)@[0]) && final(self)@ == old(
                self,
            )@.drop_first(),
            old(self).holds_events() && old(self)@.len() > 0 ==> exists|e: StoreEvent<K, T, M>|
                {
                    &&& removed_event_matches(e, old(self)@[0].1)
                    &&& final(self).events_model() == old(self).events_model().push(e)
                },
            !(old(self).holds_events() && old(self)@.len() > 0) ==> final(self).events_model()
                == old(self).events_model(),
    {
        if self.store.len() == 0 {
            return None;
        }
        let e = self.store.remove(0);
        proof {
            lemma_remove_sorted(old(self)@, 0);
            assert(old(self)@.remove(0) =~= old(self)@.drop_first());
        }
        if self.has_event_log() {
            let rv = e.1.clone();
            let ev = StoreEvent::Removed(rv);
            let ghost evg = ev;
            self.record_event(ev);
            proof {
                assert(removed_event_matches(evg, old(self)@[0].1));
                assert(self.events_model() == old(self).events_model().push(evg));
            }
        }
        Some(e)
    }

    /// Replaces the value at position `idx`, keeping its key, and records a
    /// `Changed` event from the old to the new entry.
    pub fn update_at_idx(&mut self, idx: usize, new_value: T, metadata: M)
        requires
            old(self).wf(),
            idx < old(self)@.len(),
        ensures
            final(self).wf(),
            final(self)@ == old(self)@.update(idx as int, (old(self)@[idx as int].0, new_value)),
            final(self).holds_events() == old(self).holds_events(),
            !old(self).holds_events() ==> final(self).events_model() == old(self).events_model(),
            old(self).holds_events() ==> exists|e: StoreEvent<K, T, M>|
                {
                    &&& changed_event_matches(
                        e,
                        seq![
                            (
                                old(self)@[idx as int],
                                (old(self)@[idx as int].0, new_value),
                            ),
                        ],
                        Seq::empty(),
                        metadata,
                    )
                    &&& final(self).events_model() == old(self).events_model().push(e)
                },
    {
        let hold = self.has_event_log();
        let e = self.store.remove(idx);
        let k0 = e.0;
        if hold {
            let ev_old = e.1.clone();
            let ev_new = new_value.clone();
            self.store.insert(idx, (k0, new_value));
            proof {
                assert(self.store@ =~= old(self)@.update(
                    idx as int,
                    (old(self)@[idx as int].0, self.store@[idx as int].1),
                ));
                lemma_update_value_sorted(old(self)@, idx as int, self.store@[idx as int].1);
            }
            let mut ft: Vec<((K, T), (K, T))> = Vec::new();
            ft.push(((k0, ev_old), (k0, ev_new)));
            let rm: Vec<(K, T)> = Vec::new();
            let ghost ftg = ft@;
            let ghost rmg = rm@;
            let ev = StoreEvent::Changed { from_to: ft, removed: rm, metadata };
            let ghost evg = ev;
            self.record_event(ev);
            proof {
                let spec_pair = (old(self)@[idx as int], (old(self)@[idx as int].0, new_value));
                assert(ftg[0].0.0 == spec_pair.0.0);
                assert(cloned(spec_pair.0.1, ftg[0].0.1));
                assert(ftg[0].1.0 == spec_pair.1.0);
                assert(cloned(spec_pair.1.1, ftg[0].1.1));
                assert(pairs_cloned(seq![spec_pair], ftg));
                assert(entries_cloned(Seq::empty(), rmg));
                assert(changed_event_matches(evg, seq![spec_pair], Seq::empty(), metadata));
                assert(self.events_model() == old(self).events_model().push(evg));
            }
        } else {
            self.store.insert(idx, (k0, new_value));
            proof {
                assert(self.store@ =~= old(self)@.update(
                    idx as int,
                    (old(self)@[idx as int].0, self.store@[idx as int].1),
                ));
                lemma_update_value_sorted(old(self)@, idx as int, self.store@[idx as int].1);
            }
        }
    }

    /// Empties the store and records `ClearedAll`.
    pub fn clear(&mut self)
        ensures
            final(self).wf(),
            final(self)@ == Seq::<(K, T)>::empty(),
            final(self).holds_events() == old(self).holds_events(),
            old(self).holds_events() ==> final(self).events_model() == old(
                self,
            ).events_model().push(StoreEvent::ClearedAll),
            !old(self).holds_events() ==> final(self).events_model() == old(self).events_model(),
    {
        self.store.clear();
        self.record_event(StoreEvent::ClearedAll);
    }

    /// The recorded events. May be called only on a store built with
    /// `hold_events` set; on any other store execution halts.
    pub fn events(&self) -> (r: &Vec<StoreEvent<K, T, M>>)
        requires
            self.holds_events(),
        ensures
            r@ == self.events_model(),
    {
        match &self.events {
            Some(v) => v,
            None => vstd::pervasive::unreached(),
        }
    }

    /// Empties the event log, keeping the entries.
    pub fn clear_events(&mut self)
        ensures
            final(self)@ == old(self)@,
            final(self).wf() == old(self).wf(),
            final(self).holds_events() == old(self).holds_events(),
            final(self).events_model() == Seq::<StoreEvent<K, T, M>>::empty(),
    {
        let evs = self.events.take();
        match evs {
            Some(mut v) => {
                v.clear();
                self.events = Some(v);
            },
            None => {},
        }
    }

    /// Clones a batch of entries, for an event payload.
    fn clone_entries(recs: &Vec<(K, T)>) -> (r: Vec<(K, T)>)
        ensures
            entries_cloned(recs@, r@),
    {
        let mut r: Vec<(K, T)> = Vec::new();
        let mut idx: usize = 0;
        while idx < recs.len()
            invariant
                idx <= recs@.len(),
                r@.len() == idx,
                forall|i: int|
                    0 <= i < idx ==> (#[trigger] r@[i]).0 == recs@[i].0 && cloned(
                        recs@[i].1,
                        r@[i].1,
                    ),
            decreases recs@.len() - idx,
        {
            let e = &recs[idx];
            r.push((e.0, e.1.clone()));
            idx += 1;
        }
        r
    }

    /// Writes every record of `recs` in order without recording an event;
    /// returns the displaced entries and, when `with_clones`, a clone of
    /// each displaced entry.
    fn bulk_insert_internal(&mut self, recs: Vec<(K, T)>, with_clones: bool) -> (r: (
        Vec<(K, T)>,
        Vec<(K, T)>,
    ))
        requires
            old(self).wf(),
        ensures
            final(self).wf(),
            final(self)@ == bulk_insert(old(self)@, recs@),
            r.0@ == bulk_insert_displaced(old(self)@, recs@),
            with_clones ==> entries_cloned(r.0@, r.1@),
            final(self).holds_events() == old(self).holds_events(),
            final(self).events_model() == old(self).events_model(),
    {
        let ghost s0 = self@;
        let ghost recs0 = recs@;
        let mut recs = recs;
        let mut displaced: Vec<(K, T)> = Vec::new();
        let mut displaced_ev: Vec<(K, T)> = Vec::new();
        while recs.len() > 0
            invariant
                self.wf(),
                self.holds_events() == old(self).holds_events(),
                self.events_model() == old(self).events_model(),
                bulk_insert(s0, recs0) == bulk_insert(self@, recs@),
                bulk_insert_displaced(s0, recs0) == displaced@ + bulk_insert_displaced(
                    self@,
                    recs@,
                ),
                with_clones ==> entries_cloned(displaced@, displaced_ev@),
            decreases recs@.len(),
        {
            let ghost pre = self@;
            let ghost recs_pre = recs@;
            let (k, v) = recs.remove(0);
            let d = self.add_internal(k, v);
            proof {
                assert(recs_pre[0] == (k, v));
                assert(recs@ =~= recs_pre.drop_first());
            }
            match d {
                Some(dv) => {
                    if with_clones {
                        displaced_ev.push((k, dv.clone()));
                    }
                    proof {
                        assert(displaced@.push((k, dv)) + bulk_insert_displaced(self@, recs@)
                            =~= displaced@ + (seq![(k, dv)] + bulk_insert_displaced(
                            self@,
                            recs@,
                        )));
                    }
                    displaced.push((k, dv));
                },
                None => {},
            }
        }
        proof {
            assert(bulk_insert(self@, recs@) == self@);
            assert(displaced@ + bulk_insert_displaced(self@, recs@) =~= displaced@);
        }
        (displaced, displaced_ev)
    }

    /// Writes every record of `recs` in order, returning the displaced
    /// entries, and records one `BulkAddedRemoved` event carrying clones of
    /// the whole added batch and of the displaced batch.
    pub fn bulk_add(&mut self, recs: Vec<(K, T)>, metadata: M) -> (r: Vec<(K, T)>)
        requires
            old(self).wf(),
        ensures
            final(self).wf(),
            final(self)@ == bulk_insert(old(self)@, recs@),
            r@ == bulk_insert_displaced(old(self)@, recs@),
            final(self).holds_events() == old(self).holds_events(),
            !old(self).holds_events() ==> final(self).events_model() == old(self).events_model(),
            old(self).holds_events() ==> exists|e: StoreEvent<K, T, M>|
                {
                    &&& bulk_event_matches(
                        e,
                        recs@,
                        bulk_insert_displaced(old(self)@, recs@),
                        metadata,
                    )
                    &&& final(self).events_model() == old(self).events_model().push(e)
                },
    {
        let hold = self.has_event_log();
        let added_ev: Option<Vec<(K, T)>> = if hold {
            Some(Self::clone_entries(&recs))
        } else {
            None
        };
        let ghost s0 = self@;
        let ghost recs0 = recs@;
        let (displaced, displaced_ev) = self.bulk_insert_internal(recs, hold);
        if hold {
            let ev = StoreEvent::BulkAddedRemoved {
                added: added_ev.unwrap(),
                removed: displaced_ev,
                metadata,
            };
            let ghost evg = ev;
            self.record_event(ev);
            proof {
                assert(bulk_event_matches(
                    evg,
                    recs0,
                    bulk_insert_displaced(s0, recs0),
                    metadata,
                ));
                assert(self.events_model() == old(self).events_model().push(evg));
            }
        }
        displaced
    }

    /// Removes every key of `recs` in order, returning the removed entries,
    /// and records one `BulkAddedRemoved` event whose removed side carries
    /// clones of them.
    pub fn bulk_remove(&mut self, recs: &[K], metadata: M) -> (r: Vec<(K, T)>)
        requires
            old(self).wf(),
        ensures
            final(self).wf(),
            final(self)@ == bulk_remove_keys(old(self)@, recs@),
            r@ == bulk_removed(old(self)@, recs@),
            final(self).holds_events() == old(self).holds_events(),
            !old(self).holds_events() ==> final(self).events_model() == old(self).events_model(),
            old(self).holds_events() ==> exists|e: StoreEvent<K, T, M>|
                {
                    &&& bulk_event_matches(
                        e,
                        Seq::empty(),
                        bulk_removed(old(self)@, recs@),
                        metadata,
                    )
                    &&& final(self).events_model() == old(self).events_model().push(e)
                },
    {
        let hold = self.has_event_log();
        let ghost s0 = self@;
        let mut removed: Vec<(K, T)> = Vec::new();
        let mut removed_ev: Vec<(K, T)> = Vec::new();
        let mut idx: usize = 0;
        proof {
            assert(recs@.skip(0) =~= recs@);
            assert(Seq::<(K, T)>::empty() + bulk_removed(self@, recs@) =~= bulk_removed(
                self@,
                recs@,
            ));
        }
        while idx < recs.len()
            invariant
                self.wf(),
                idx <= recs@.len(),
                self.holds_events() == old(self).holds_events(),
                self.events_model() == old(self).events_model(),
                hold == self.holds_events(),
                bulk_remove_keys(s0, recs@) == bulk_remove_keys(self@, recs@.skip(idx as int)),
                bulk_removed(s0, recs@) == removed@ + bulk_removed(self@, recs@.skip(idx as int)),
                hold ==> entries_cloned(removed@, removed_ev@),
            decreases recs@.len() - idx,
        {
            let ghost pre = self@;
            let ghost rest = recs@.skip(idx as int);
            let k = recs[idx];
            let d = self.remove_internal(&k);
            proof {
                assert(rest[0] == k);
                assert(rest.drop_first() =~= recs@.skip(idx as int + 1));
            }
            match d {
                Some(e) => {
                    if hold {
                        removed_ev.push((e.0, e.1.clone()));
                    }
                    proof {
                        assert(removed@.push(e) + bulk_removed(self@, recs@.skip(idx as int + 1))
                            =~= removed@ + (seq![e] + bulk_removed(
                            self@,
                            recs@.skip(idx as int + 1),
                        )));
                    }
                    removed.push(e);
                },
                None => {},
            }
            idx += 1;
        }
        proof {
            assert(recs@.skip(recs@.len() as int) =~= Seq::<K>::empty());
            assert(bulk_remove_keys(self@, recs@.skip(idx as int)) == self@);
            assert(removed@ + bulk_removed(self@, recs@.skip(idx as int)) =~= removed@);
        }
        if hold {
            let ev = StoreEvent::BulkAddedRemoved {
                added: Vec::new(),
                removed: removed_ev,
                metadata,
            };
            let ghost evg = ev;
            self.record_event(ev);
            proof {
                assert(entries_cloned(Seq::empty(), Seq::<(K, T)>::empty()));
                assert(bulk_event_matches(evg, Seq::empty(), bulk_removed(s0, recs@), metadata));
                assert(self.events_model() == old(self).events_model().push(evg));
            }
        }
        removed
    }

    /// Batch move: first removes every `from` key of `from_to`, then writes
    /// every destination entry whose source was present. Removals fully
    /// precede insertions, so a destination may reuse a key removed by a
    /// later pair. Returns the entries displaced by the insertions and
    /// records one `Changed` event carrying the realized moves and the
    /// displaced entries.
    pub fn change(&mut self, from_to: Vec<(K, (K, T))>, metadata: M) -> (r: Vec<(K, T)>)
        requires
            old(self).wf(),
        ensures
            final(self).wf(),
            final(self)@ == bulk_insert(
                change_phase1(old(self)@, from_to@),
                change_insertions(old(self)@, from_to@),
            ),
            r@ == bulk_insert_displaced(
                change_phase1(old(self)@, from_to@),
                change_insertions(old(self)@, from_to@),
            ),
            final(self).holds_events() == old(self).holds_events(),
            !old(self).holds_events() ==> final(self).events_model() == old(self).events_model(),
            old(self).holds_events() ==> exists|e: StoreEvent<K, T, M>|
                {
                    &&& changed_event_matches(
                        e,
                        change_realized(old(self)@, from_to@),
                        bulk_insert_displaced(
                            change_phase1(old(self)@, from_to@),
                            change_insertions(old(self)@, from_to@),
                        ),
                        metadata,
                    )
                    &&& final(self).events_model() == old(self).events_model().push(e)
                },
    {
        let hold = self.has_event_log();
        let ghost s0 = self@;
        let ghost ft0 = from_to@;
        let mut from_to = from_to;
        let mut pending: Vec<(K, T)> = Vec::new();
        let mut realized_ev: Vec<((K, T), (K, T))> = Vec::new();
        let ghost mut done: Seq<((K, T), (K, T))> = Seq::empty();
        while from_to.len() > 0
            invariant
                self.wf(),
                self.holds_events() == old(self).holds_events(),
                self.events_model() == old(self).events_model(),
                hold == self.holds_events(),
                change_phase1(s0, ft0) == change_phase1(self@, from_to@),
                change_realized(s0, ft0) == done + change_realized(self@, from_to@),
                pending@ == done.map_values(|p: ((K, T), (K, T))| p.1),
                hold ==> pairs_cloned(done, realized_ev@),
            decreases from_to@.len(),
        {
            let ghost pre = self@;
            let ghost ft_pre = from_to@;
            let (fk, to) = from_to.remove(0);
            let (tk, tv) = to;
            let d = self.remove_internal(&fk);
            proof {
                assert(ft_pre[0] == (fk, (tk, tv)));
                assert(from_to@ =~= ft_pre.drop_first());
            }
            match d {
                Some(rem) => {
                    proof {
                        lemma_key_pos_found(pre, fk);
                        assert(rem == pre[key_pos(pre, fk)]);
                        assert(rem.0 == fk);
                    }
                    let ghost step = (rem, (tk, tv));
                    if hold {
                        let c0 = rem.1.clone();
                        let c1 = tv.clone();
                        let ghost evpair = ((fk, c0), (tk, c1));
                        let ghost rev_pre = realized_ev@;
                        realized_ev.push(((fk, c0), (tk, c1)));
                        proof {
                            assert(realized_ev@ == rev_pre.push(evpair));
                            assert forall|i: int| 0 <= i < done.push(step).len() implies {
                                &&& (#[trigger] realized_ev@[i]).0.0 == done.push(step)[i].0.0
                                &&& cloned(done.push(step)[i].0.1, realized_ev@[i].0.1)
                                &&& realized_ev@[i].1.0 == done.push(step)[i].1.0
                                &&& cloned(done.push(step)[i].1.1, realized_ev@[i].1.1)
                            } by {
                                if i < done.len() {
                                    assert(realized_ev@[i] == rev_pre[i]);
                                    assert(done.push(step)[i] == done[i]);
                                } else {
                                    assert(realized_ev@[i] == evpair);
                                    assert(done.push(step)[i] == step);
                                }
                            }
                            assert(pairs_cloned(done.push(step), realized_ev@));
                        }
                    }
                    proof {
                        assert(done.push(step) + change_realized(self@, from_to@) =~= done + (
                        seq![step] + change_realized(self@, from_to@)));
                        assert((done.push(step)).map_values(|p: ((K, T), (K, T))| p.1)
                            =~= done.map_values(|p: ((K, T), (K, T))| p.1).push((tk, tv)));
                        done = done.push(step);
                    }
                    pending.push((tk, tv));
                },
                None => {},
            }
        }
        proof {
            assert(change_phase1(self@, from_to@) == self@);
            assert(change_realized(self@, from_to@) =~= Seq::<((K, T), (K, T))>::empty());
            assert(done + change_realized(self@, from_to@) =~= done);
            assert(done == change_realized(s0, ft0));
            assert(pending@ == change_insertions(s0, ft0));
        }
        let ghost mid = self@;
        let (displaced, displaced_ev) = self.bulk_insert_internal(pending, hold);
        if hold {
            let ev = StoreEvent::Changed {
                from_to: realized_ev,
                removed: displaced_ev,
                metadata,
            };
            let ghost evg = ev;
            self.record_event(ev);
            proof {
                assert(changed_event_matches(
                    evg,
                    change_realized(s0, ft0),
                    bulk_insert_displaced(mid, change_insertions(s0, ft0)),
                    metadata,
                ));
                assert(self.events_model() == old(self).events_model().push(evg));
            }
        }
        displaced
    }

    /// Resolves `start` and `end` to entry positions by binary search and
    /// returns the start position together with the contiguous sub-slice of
    /// entries inside the bounds. An empty result comes as `(0, empty)`.
    pub fn range(&self, start: KeyBound<K>, end: KeyBound<K>) -> (r: (usize, &[(K, T)]))
        requires
            self.wf(),
            self@.len() > 0 ==> range_start_idx(self@, start) <= range_end_idx(self@, end),
        ensures
            self@.len() == 0 ==> r.0 == 0 && r.1@ == Seq::<(K, T)>::empty(),
            self@.len() > 0 ==> ({
                let a = range_start_idx(self@, start);
                let b = range_end_idx(self@, end);
                if a == b {
                    r.0 == 0 && r.1@ == Seq::<(K, T)>::empty()
                } else {
                    r.0 == a && r.1@ == self@.subrange(a, b)
                }
            }),
    {
        if self.store.len() == 0 {
            return (0, slice_subrange(self.store.as_slice(), 0, 0));
        }
        let a: usize = match start {
            KeyBound::Unbounded => 0,
            KeyBound::Included(k) => match self.index(k) {
                Ok(i) => i,
                Err(i) => i,
            },
            KeyBound::Excluded(k) => match self.index(k) {
                Ok(i) => i + 1,
                Err(i) => i,
            },
        };
        let b: usize = match end {
            KeyBound::Unbounded => self.store.len(),
            KeyBound::Included(k) => match self.index(k) {
                Ok(i) => i + 1,
                Err(i) => i,
            },
            KeyBound::Excluded(k) => match self.index(k) {
                Ok(i) => i,
                Err(i) => i,
            },
        };
        if a == b {
            (0, slice_subrange(self.store.as_slice(), 0, 0))
        } else {
            (a, slice_subrange(self.store.as_slice(), a, b))
        }
    }

    /// Entries from the greatest key at most `k` on: the returned slice
    /// starts at `k`'s entry when present, else at its closest predecessor,
    /// and is empty when every key lies above `k`.
    pub fn just_before(&self, k: K) -> (r: &[(K, T)])
        requires
            self.wf(),
        ensures
            ({
                let p = key_pos(self@, k);
                if has_key(self@, k) {
                    r@ == self@.skip(p)
                } else if p > 0 {
                    r@ == self@.skip(p - 1)
                } else {
                    r@ == Seq::<(K, T)>::empty()
                }
            }),
    {
        if self.store.len() == 0 {
            return slice_subrange(self.store.as_slice(), 0, 0);
        }
        match self.index(k) {
            Ok(i) => {
                proof {
                    assert(self@.subrange(i as int, self@.len() as int) =~= self@.skip(i as int));
                }
                slice_subrange(self.store.as_slice(), i, self.store.len())
            },
            Err(i) => {
                if i == 0 {
                    slice_subrange(self.store.as_slice(), 0, 0)
                } else {
                    proof {
                        assert(self@.subrange(i - 1, self@.len() as int) =~= self@.skip(i - 1));
                    }
                    slice_subrange(self.store.as_slice(), i - 1, self.store.len())
                }
            },
        }
    }

    /// Keeps only the entries whose value satisfies `f`, preserving their
    /// order, and returns the removed entries; records one
    /// `BulkAddedRemoved` event whose removed side carries clones of them.
    pub fn retain_values<F: Fn(&T) -> bool>(&mut self, metadata: M, f: F) -> (r: Vec<(K, T)>)
        requires
            old(self).wf(),
            forall|v: &T| #[trigger] call_requires(f, (v,)),
        ensures
            final(self).wf(),
            exists|keep: Seq<bool>|
                {
                    &&& keep.len() == old(self)@.len()
                    &&& (forall|i: int|
                        0 <= i < keep.len() ==> call_ensures(
                            f,
                            (&old(self)@[i].1,),
                            #[trigger] keep[i],
                        ))
                    &&& final(self)@ == mask_keep(old(self)@, keep)
                    &&& r@ == mask_drop(old(self)@, keep)
                },
            final(self).holds_events() == old(self).holds_events(),
            !old(self).holds_events() ==> final(self).events_model() == old(self).events_model(),
            old(self).holds_events() ==> exists|e: StoreEvent<K, T, M>|
                {
                    &&& bulk_event_matches(e, Seq::empty(), r@, metadata)
                    &&& final(self).events_model() == old(self).events_model().push(e)
                },
    {
        let hold = self.has_event_log();
        let ghost s0 = self@;
        let mut kept: Vec<(K, T)> = Vec::new();
        let mut removed: Vec<(K, T)> = Vec::new();
        let mut removed_ev: Vec<(K, T)> = Vec::new();
        let ghost mut keep: Seq<bool> = Seq::empty();
        let ghost mut i: int = 0;
        proof {
            assert(self@ =~= s0.skip(0));
            assert(s0.take(0) =~= Seq::<(K, T)>::empty());
        }
        while self.store.len() > 0
            invariant
                forall|v: &T| #[trigger] call_requires(f, (v,)),
                0 <= i <= s0.len(),
                self@ == s0.skip(i),
                self.holds_events() == old(self).holds_events(),
                self.events_model() == old(self).events_model(),
                hold == self.holds_events(),
                keep.len() == i,
                forall|j: int| 0 <= j < i ==> call_ensures(f, (&s0[j].1,), #[trigger] keep[j]),
                kept@ == mask_keep(s0.take(i), keep),
                removed@ == mask_drop(s0.take(i), keep),
                hold ==> entries_cloned(removed@, removed_ev@),
            decreases self@.len(),
        {
            let ghost keep_pre = keep;
            let e = self.store.remove(0);
            proof {
                assert(e == s0[i]);
                assert(self.store@ =~= s0.skip(i + 1));
            }
            let b = f(&e.1);
            proof {
                keep = keep.push(b);
                i = i + 1;
                assert(s0.take(i).drop_last() =~= s0.take(i - 1));
                assert(keep.drop_last() =~= keep_pre);
                assert(s0.take(i).last() == s0[i - 1]);
                assert(keep.last() == b);
            }
            if b {
                kept.push(e);
            } else {
                if hold {
                    removed_ev.push((e.0, e.1.clone()));
                }
                removed.push(e);
            }
        }
        proof {
            assert(s0.skip(i).len() == 0);
            assert(i == s0.len());
            assert(s0.take(i) =~= s0);
            lemma_mask_sorted(s0, keep);
        }
        self.store = kept;
        if hold {
            let ev = StoreEvent::BulkAddedRemoved {
                added: Vec::new(),
                removed: removed_ev,
                metadata,
            };
            let ghost evg = ev;
            self.record_event(ev);
            proof {
                assert(entries_cloned(Seq::empty(), Seq::<(K, T)>::empty()));
                assert(bulk_event_matches(evg, Seq::empty(), mask_drop(s0, keep), metadata));
                assert(self.events_model() == old(self).events_model().push(evg));
            }
        }
        removed
    }

    /// Upserts at `*k` through `f`: `f` receives the current value when the
    /// key is present (`None` otherwise), is called exactly once, and its
    /// result is stored under the key. Records `Changed` on an update and
    /// `Added` on an insert.
    pub fn replace<F: FnOnce(Option<&T>) -> T>(&mut self, k: &K, metadata: M, f: F)
        requires
            old(self).wf(),
            forall|arg: Option<&T>| #[trigger] call_requires(f, (arg,)),
        ensures
            final(self).wf(),
            final(self).holds_events() == old(self).holds_events(),
            !old(self).holds_events() ==> final(self).events_model() == old(self).events_model(),
            exists|nv: T|
                {
                    &&& if has_key(old(self)@, *k) {
                        call_ensures(f, (Some(&old(self)@[key_pos(old(self)@, *k)].1),), nv)
                    } else {
                        call_ensures(f, (None::<&T>,), nv)
                    }
                    &&& final(self)@ == entry_insert(old(self)@, *k, nv)
                    &&& (old(self).holds_events() && has_key(old(self)@, *k) ==> exists|
                        e: StoreEvent<K, T, M>,
                    |
                        {
                            &&& changed_event_matches(
                                e,
                                seq![
                                    (
                                        (*k, old(self)@[key_pos(old(self)@, *k)].1),
                                        (*k, nv),
                                    ),
                                ],
                                Seq::empty(),
                                metadata,
                            )
                            &&& final(self).events_model() == old(self).events_model().push(e)
                        })
                    &&& (old(self).holds_events() && !has_key(old(self)@, *k) ==> exists|
                        e: StoreEvent<K, T, M>,
                    |
                        {
                            &&& added_event_matches(e, nv, metadata)
                            &&& final(self).events_model() == old(self).events_model().push(e)
                        })
                },
    {
        let hold = self.has_event_log();
        match self.index(*k) {
            Ok(idx) => {
                let e = self.store.remove(idx);
                let nv = f(Some(&e.1));
                let ghost nvg = nv;
                if hold {
                    let old_c = e.1.clone();
                    let nv_c = nv.clone();
                    self.store.insert(idx, (*k, nv));
                    proof {
                        assert(self.store@ =~= old(self)@.update(idx as int, (*k, nvg)));
                        lemma_entry_insert_sorted(old(self)@, *k, nvg);
                    }
                    let mut ft: Vec<((K, T), (K, T))> = Vec::new();
                    ft.push(((*k, old_c), (*k, nv_c)));
                    let rm: Vec<(K, T)> = Vec::new();
                    let ghost ftg = ft@;
                    let ghost rmg = rm@;
                    let ev = StoreEvent::Changed { from_to: ft, removed: rm, metadata };
                    let ghost evg = ev;
                    self.record_event(ev);
                    proof {
                        let spec_pair = (
                            (*k, old(self)@[key_pos(old(self)@, *k)].1),
                            (*k, nvg),
                        );
                        assert(ftg[0].0.0 == spec_pair.0.0);
                        assert(cloned(spec_pair.0.1, ftg[0].0.1));
                        assert(ftg[0].1.0 == spec_pair.1.0);
                        assert(cloned(spec_pair.1.1, ftg[0].1.1));
                        assert(pairs_cloned(seq![spec_pair], ftg));
                        assert(entries_cloned(Seq::empty(), rmg));
                        assert(changed_event_matches(evg, seq![spec_pair], Seq::empty(), metadata));
                        assert(self.events_model() == old(self).events_model().push(evg));
                    }
                } else {
                    self.store.insert(idx, (*k, nv));
                    proof {
                        assert(self.store@ =~= old(self)@.update(idx as int, (*k, nvg)));
                        lemma_entry_insert_sorted(old(self)@, *k, nvg);
                    }
                }
            },
            Err(idx) => {
                let nv = f(None);
                let ghost nvg = nv;
                if hold {
                    let nv_c = nv.clone();
                    self.store.insert(idx, (*k, nv));
                    proof {
                        lemma_entry_insert_sorted(old(self)@, *k, nvg);
                    }
                    let ev = StoreEvent::Added { added: nv_c, metadata };
                    let ghost evg = ev;
                    self.record_event(ev);
                    proof {
                        assert(added_event_matches(evg, nvg, metadata));
                        assert(self.events_model() == old(self).events_model().push(evg));
                    }
                } else {
                    self.store.insert(idx, (*k, nv));
                    proof {
                        lemma_entry_insert_sorted(old(self)@, *k, nvg);
                    }
                }
            },
        }
    }

    /// Upserts at `*k` through `f`, which may decline: `f` receives the
    /// current value when the key is present (`None` otherwise); a `Some`
    /// result is stored under the key (recording `Changed` on an update and
    /// `Added` on an insert), a `None` result leaves the store and the event
    /// log untouched.
    pub fn replace_mut<F: FnOnce(Option<&T>) -> Option<T>>(&mut self, k: &K, metadata: M, f: F)
        requires
            old(self).wf(),
            forall|arg: Option<&T>| #[trigger] call_requires(f, (arg,)),
        ensures
            final(self).wf(),
            final(self).holds_events() == old(self).holds_events(),
            !old(self).holds_events() ==> final(self).events_model() == old(self).events_model(),
            exists|out: Option<T>|
                {
                    &&& if has_key(old(self)@, *k) {
                        call_ensures(f, (Some(&old(self)@[key_pos(old(self)@, *k)].1),), out)
                    } else {
                        call_ensures(f, (None::<&T>,), out)
                    }
                    &&& upsert_outcome(
                        old(self)@,
                        old(self).events_model(),
                        old(self).holds_events(),
                        final(self)@,
                        final(self).events_model(),
                        *k,
                        metadata,
                        out,
                    )
                },
    {
        let hold = self.has_event_log();
        match self.index(*k) {
            Ok(idx) => {
                let cur = &self.store[idx];
                let out = f(Some(&cur.1));
                let ghost outg = out;
                proof {
                    assert(*cur == old(self)@[key_pos(old(self)@, *k)]);
                    assert(call_ensures(
                        f,
                        (Some(&old(self)@[key_pos(old(self)@, *k)].1),),
                        outg,
                    ));
                }
                match out {
                    Some(nv) => {
                        let e = self.store.remove(idx);
                        let ghost nvg = nv;
                        if hold {
                            let old_c = e.1.clone();
                            let nv_c = nv.clone();
                            self.store.insert(idx, (*k, nv));
                            proof {
                                assert(self.store@ =~= old(self)@.update(idx as int, (*k, nvg)));
                                lemma_entry_insert_sorted(old(self)@, *k, nvg);
                            }
                            let mut ft: Vec<((K, T), (K, T))> = Vec::new();
                            ft.push(((*k, old_c), (*k, nv_c)));
                            let rm: Vec<(K, T)> = Vec::new();
                            let ghost ftg = ft@;
                            let ghost rmg = rm@;
                            let ev = StoreEvent::Changed { from_to: ft, removed: rm, metadata };
                            let ghost evg = ev;
                            self.record_event(ev);
                            proof {
                                let spec_pair = (
                                    (*k, old(self)@[key_pos(old(self)@, *k)].1),
                                    (*k, nvg),
                                );
                                assert(ftg[0].0.0 == spec_pair.0.0);
                                assert(cloned(spec_pair.0.1, ftg[0].0.1));
                                assert(ftg[0].1.0 == spec_pair.1.0);
                                assert(cloned(spec_pair.1.1, ftg[0].1.1));
                                assert(pairs_cloned(seq![spec_pair], ftg));
                                assert(entries_cloned(Seq::empty(), rmg));
                                assert(changed_event_matches(
                                    evg,
                                    seq![spec_pair],
                                    Seq::empty(),
                                    metadata,
                                ));
                                assert(self.events_model() == old(self).events_model().push(evg));
                            }
                        } else {
                            self.store.insert(idx, (*k, nv));
                            proof {
                                assert(self.store@ =~= old(self)@.update(idx as int, (*k, nvg)));
                                lemma_entry_insert_sorted(old(self)@, *k, nvg);
                            }
                        }
                    },
                    None => {},
                }
                proof {
                    assert(upsert_outcome(
                        old(self)@,
                        old(self).events_model(),
                        old(self).holds_events(),
                        self@,
                        self.events_model(),
                        *k,
                        metadata,
                        outg,
                    ));
                }
            },
            Err(idx) => {
                let out = f(None);
                let ghost outg = out;
                proof {
                    assert(call_ensures(f, (None::<&T>,), outg));
                }
                match out {
                    Some(nv) => {
                        let ghost nvg = nv;
                        if hold {
                            let nv_c = nv.clone();
                            self.store.insert(idx, (*k, nv));
                            proof {
                                lemma_entry_insert_sorted(old(self)@, *k, nvg);
                            }
                            let ev = StoreEvent::Added { added: nv_c, metadata };
                            let ghost evg = ev;
                            self.record_event(ev);
                            proof {
                                assert(added_event_matches(evg, nvg, metadata));
                                assert(self.events_model() == old(self).events_model().push(evg));
                            }
                        } else {
                            self.store.insert(idx, (*k, nv));
                            proof {
                                lemma_entry_insert_sorted(old(self)@, *k, nvg);
                            }
                        }
                    },
                    None => {},
                }
                proof {
                    assert(upsert_outcome(
                        old(self)@,
                        old(self).events_model(),
                        old(self).holds_events(),
                        self@,
                        self.events_model(),
                        *k,
                        metadata,
                        outg,
                    ));
                }
            },
        }
    }

    /// A cursor over this store for repeated nearest-key queries.
    pub fn finder<'a>(&'a self) -> (r: Finder<'a, K, T, M>)
        ensures
            r.store_view() == self@,
            r.store_wf() == self.wf(),
    {
        Finder { store: self, locator: 0 }
    }

    /// Entries from the least key at least `k` on: the returned slice starts
    /// at `k`'s entry when present, else at its closest successor, and is
    /// empty when every key lies below `k`.
    pub fn just_after(&self, k: K) -> (r: &[(K, T)])
        requires
            self.wf(),
        ensures
            ({
                let p = key_pos(self@, k);
                if p < self@.len() {
                    r@ == self@.skip(p)
                } else {
                    r@ == Seq::<(K, T)>::empty()
                }
            }),
    {
        if self.store.len() == 0 {
            return slice_subrange(self.store.as_slice(), 0, 0);
        }
        match self.index(k) {
            Ok(i) => {
                proof {
                    assert(self@.subrange(i as int, self@.len() as int) =~= self@.skip(i as int));
                }
                slice_subrange(self.store.as_slice(), i, self.store.len())
            },
            Err(i) => {
                if i >= self.store.len() {
                    slice_subrange(self.store.as_slice(), 0, 0)
                } else {
                    proof {
                        assert(self@.subrange(i as int, self@.len() as int) =~= self@.skip(
                            i as int,
                        ));
                    }
                    slice_subrange(self.store.as_slice(), i, self.store.len())
                }
            },
        }
    }
}

/// A cursor over a [`Store`] that exploits locality of repeated nearest-key
/// queries: it first re-checks the position of its previous answer and falls
/// back to binary search only when the cached position no longer fits.
pub struct Finder<'a, K: KeyOrd, T, M> {
    store: &'a Store<K, T, M>,
    locator: usize,
}

impl<'a, K: KeyOrd, T: Clone, M> Finder<'a, K, T, M> {
    /// The entries of the store this cursor reads.
    pub closed spec fn store_view(self) -> Seq<(K, T)> {
        self.store@
    }

    /// Whether the underlying store is well-formed.
    pub closed spec fn store_wf(self) -> bool {
        self.store.wf()
    }

    /// The entry with the greatest key at most `k`: `k`'s own entry when
    /// present, else its closest predecessor; `None` when every key lies
    /// above `k`.
    pub fn just_before(&mut self, k: K) -> (r: Option<&'a (K, T)>)
        requires
            old(self).store_wf(),
        ensures
            final(self).store_view() == old(self).store_view(),
            final(self).store_wf(),
            ({
                let s = old(self).store_view();
                let p = key_pos(s, k);
                if has_key(s, k) {
                    r is Some && *r.unwrap() == s[p]
                } else if p > 0 {
                    r is Some && *r.unwrap() == s[p - 1]
                } else {
                    r is None
                }
            }),
    {
        let st = self.store;
        let n = st.store.len();
        if n == 0 {
            return None;
        }
        let loc = self.locator;
        if loc < n {
            let k0 = st.store[loc].0;
            let o0 = k0.key_cmp(&k);
            let le0 = match o0 {
                Ordering::Less => true,
                Ordering::Equal => true,
                Ordering::Greater => false,
            };
            if le0 {
                let hit = if loc + 1 == n {
                    true
                } else {
                    let k1 = st.store[loc + 1].0;
                    let o1 = k.key_cmp(&k1);
                    match o1 {
                        Ordering::Less => true,
                        _ => false,
                    }
                };
                if hit {
                    proof {
                        let s = st@;
                        let p = key_pos(s, k);
                        lemma_key_pos_split(s, k);
                        if has_key(s, k) {
                            lemma_key_pos_found(s, k);
                            if loc < p {
                                if loc + 1 < n {
                                    assert(key_lt(k, s[loc + 1].0));
                                    if loc + 1 == p {
                                        assert(s[p].0 == k);
                                        assert(false);
                                    } else {
                                        assert(key_lt(s[loc + 1].0, k));
                                        lemma_key_lt_asym(k, s[loc + 1].0);
                                        assert(false);
                                    }
                                } else {
                                    assert(loc < p < n == loc + 1);
                                    assert(false);
                                }
                            }
                            if loc > p {
                                if s[loc as int].0 == k {
                                    lemma_sorted_unique_keys(s, loc as int, p);
                                } else {
                                    assert(key_lt(s[loc as int].0, k));
                                    assert(false);
                                }
                            }
                            assert(loc == p);
                        } else {
                            assert(s[loc as int].0 != k) by {
                                if s[loc as int].0 == k {
                                    assert(0 <= loc < s.len() && s[loc as int].0 == k);
                                    assert(has_key(s, k));
                                }
                            }
                            assert(key_lt(s[loc as int].0, k));
                            assert(loc < p);
                            if loc + 1 == n {
                                assert(p <= n);
                                assert(loc == p - 1);
                            } else {
                                assert(key_lt(k, s[loc + 1].0));
                                if loc + 1 < p {
                                    assert(key_lt(s[loc + 1].0, k));
                                    lemma_key_lt_asym(k, s[loc + 1].0);
                                    assert(false);
                                }
                                assert(loc == p - 1);
                            }
                        }
                    }
                    return Some(&st.store[loc]);
                }
            }
        }
        match st.index(k) {
            Ok(i) => {
                self.locator = i;
                Some(&st.store[i])
            },
            Err(i) => {
                if i == 0 {
                    None
                } else {
                    self.locator = i - 1;
                    Some(&st.store[i - 1])
                }
            },
        }
    }
}

} // verus!
