//! Specification-level model of entry sequences sorted strictly by key.
//!
//! Both stores of this crate keep their entries in a sequence whose keys are
//! strictly ascending. This module defines that well-formedness condition,
//! the insertion position of a key, the effect of point and bulk mutations,
//! and the lemmas the executable code uses to reason about them.
use vstd::prelude::*;

verus! {

use crate::key_order::{KeyOrd, key_lt, lemma_key_lt_trans, lemma_key_not_lt};

/// Entries are strictly ascending by key: keys are unique and sorted.
pub open spec fn sorted_entries<K: KeyOrd, T>(s: Seq<(K, T)>) -> bool {
    forall|i: int, j: int| 0 <= i < j < s.len() ==> #[trigger] key_lt(s[i].0, s[j].0)
}

/// Some entry carries the key `k`.
pub open spec fn has_key<K: KeyOrd, T>(s: Seq<(K, T)>, k: K) -> bool {
    exists|i: int| 0 <= i < s.len() && (#[trigger] s[i]).0 == k
}

/// Number of leading entries whose key lies strictly below `k`.
///
/// For a sorted sequence this is both the position at which `k` would be
/// inserted and the index of `k`'s entry when one is present.
pub open spec fn key_pos<K: KeyOrd, T>(s: Seq<(K, T)>, k: K) -> int
    decreases s.len(),
{
    if s.len() == 0 {
        0
    } else if key_lt(s[0].0, k) {
        1 + key_pos(s.drop_first(), k)
    } else {
        0
    }
}

/// The sequence after writing `v` under `k`: an entry with key `k` is
/// replaced in place, otherwise `(k, v)` enters at the insertion position.
pub open spec fn entry_insert<K: KeyOrd, T>(s: Seq<(K, T)>, k: K, v: T) -> Seq<(K, T)> {
    if has_key(s, k) {
        s.update(key_pos(s, k), (k, v))
    } else {
        s.insert(key_pos(s, k), (k, v))
    }
}

/// The value displaced by writing under `k`, if any.
pub open spec fn displaced_by_insert<K: KeyOrd, T>(s: Seq<(K, T)>, k: K) -> Option<T> {
    if has_key(s, k) {
        Some(s[key_pos(s, k)].1)
    } else {
        None
    }
}

/// The sequence after removing the entry with key `k`, if one is present.
pub open spec fn entry_remove<K: KeyOrd, T>(s: Seq<(K, T)>, k: K) -> Seq<(K, T)> {
    if has_key(s, k) {
        s.remove(key_pos(s, k))
    } else {
        s
    }
}

/// The entry removed by [`entry_remove`], if any.
pub open spec fn removed_by_remove<K: KeyOrd, T>(s: Seq<(K, T)>, k: K) -> Option<(K, T)> {
    if has_key(s, k) {
        Some(s[key_pos(s, k)])
    } else {
        None
    }
}

/// The sequence after writing every record of `recs`, first to last.
pub open spec fn bulk_insert<K: KeyOrd, T>(s: Seq<(K, T)>, recs: Seq<(K, T)>) -> Seq<(K, T)>
    decreases recs.len(),
{
    if recs.len() == 0 {
        s
    } else {
        bulk_insert(entry_insert(s, recs[0].0, recs[0].1), recs.drop_first())
    }
}

/// The entries displaced while writing every record of `recs`, in order.
pub open spec fn bulk_insert_displaced<K: KeyOrd, T>(s: Seq<(K, T)>, recs: Seq<(K, T)>) -> Seq<
    (K, T),
>
    decreases recs.len(),
{
    if recs.len() == 0 {
        Seq::empty()
    } else {
        let rest = bulk_insert_displaced(entry_insert(s, recs[0].0, recs[0].1), recs.drop_first());
        match displaced_by_insert(s, recs[0].0) {
            Some(v) => seq![(recs[0].0, v)] + rest,
            None => rest,
        }
    }
}

/// The sequence after removing every key of `keys`, first to last.
pub open spec fn bulk_remove_keys<K: KeyOrd, T>(s: Seq<(K, T)>, keys: Seq<K>) -> Seq<(K, T)>
    decreases keys.len(),
{
    if keys.len() == 0 {
        s
    } else {
        bulk_remove_keys(entry_remove(s, keys[0]), keys.drop_first())
    }
}

/// The entries removed while removing every key of `keys`, in order.
pub open spec fn bulk_removed<K: KeyOrd, T>(s: Seq<(K, T)>, keys: Seq<K>) -> Seq<(K, T)>
    decreases keys.len(),
{
    if keys.len() == 0 {
        Seq::empty()
    } else {
        let rest = bulk_removed(entry_remove(s, keys[0]), keys.drop_first());
        match removed_by_remove(s, keys[0]) {
            Some(e) => seq![e] + rest,
            None => rest,
        }
    }
}

/// The elements of `s` marked `true` in `keep`, in order.
pub open spec fn mask_keep<A>(s: Seq<A>, keep: Seq<bool>) -> Seq<A>
    decreases s.len(),
{
    if s.len() == 0 {
        Seq::empty()
    } else {
        let prev = mask_keep(s.drop_last(), keep.drop_last());
        if keep.last() {
            prev.push(s.last())
        } else {
            prev
        }
    }
}

/// The elements of `s` marked `false` in `keep`, in order.
pub open spec fn mask_drop<A>(s: Seq<A>, keep: Seq<bool>) -> Seq<A>
    decreases s.len(),
{
    if s.len() == 0 {
        Seq::empty()
    } else {
        let prev = mask_drop(s.drop_last(), keep.drop_last());
        if keep.last() {
            prev
        } else {
            prev.push(s.last())
        }
    }
}

pub proof fn lemma_sorted_drop_first<K: KeyOrd, T>(s: Seq<(K, T)>)
    requires
        s.len() > 0,
        sorted_entries(s),
    ensures
        sorted_entries(s.drop_first()),
{
    assert forall|i: int, j: int|
        0 <= i < j < s.drop_first().len() implies #[trigger] key_lt(
        s.drop_first()[i].0,
        s.drop_first()[j].0,
    ) by {
        assert(s.drop_first()[i] == s[i + 1]);
        assert(s.drop_first()[j] == s[j + 1]);
        assert(key_lt(s[i + 1].0, s[j + 1].0));
    }
}

/// Two entries of a sorted sequence with the same key sit at the same index.
pub proof fn lemma_sorted_unique_keys<K: KeyOrd, T>(s: Seq<(K, T)>, i: int, j: int)
    requires
        sorted_entries(s),
        0 <= i < s.len(),
        0 <= j < s.len(),
        s[i].0 == s[j].0,
    ensures
        i == j,
{
    if i < j {
        assert(key_lt(s[i].0, s[j].0));
    }
    if j < i {
        assert(key_lt(s[j].0, s[i].0));
    }
}

pub proof fn lemma_key_pos_bounds<K: KeyOrd, T>(s: Seq<(K, T)>, k: K)
    ensures
        0 <= key_pos(s, k) <= s.len(),
    decreases s.len(),
{
    if s.len() != 0 && key_lt(s[0].0, k) {
        lemma_key_pos_bounds(s.drop_first(), k);
    }
}

/// In a sorted sequence, `key_pos` separates the keys below `k` from the
/// rest: every key before it is below `k`, no key from it on is.
pub proof fn lemma_key_pos_split<K: KeyOrd, T>(s: Seq<(K, T)>, k: K)
    requires
        sorted_entries(s),
    ensures
        0 <= key_pos(s, k) <= s.len(),
        forall|j: int| 0 <= j < key_pos(s, k) ==> #[trigger] key_lt(s[j].0, k),
        forall|j: int| key_pos(s, k) <= j < s.len() ==> !#[trigger] key_lt(s[j].0, k),
    decreases s.len(),
{
    lemma_key_pos_bounds(s, k);
    if s.len() == 0 {
    } else if key_lt(s[0].0, k) {
        lemma_sorted_drop_first(s);
        lemma_key_pos_split(s.drop_first(), k);
        let p = key_pos(s, k);
        assert forall|j: int| 0 <= j < p implies #[trigger] key_lt(s[j].0, k) by {
            if j > 0 {
                assert(s.drop_first()[j - 1] == s[j]);
                assert(key_lt(s.drop_first()[j - 1].0, k));
            }
        }
        assert forall|j: int| p <= j < s.len() implies !#[trigger] key_lt(s[j].0, k) by {
            assert(s.drop_first()[j - 1] == s[j]);
            assert(!key_lt(s.drop_first()[j - 1].0, k));
        }
    } else {
        assert forall|j: int| 0 <= j < s.len() implies !#[trigger] key_lt(s[j].0, k) by {
            if j > 0 && key_lt(s[j].0, k) {
                assert(key_lt(s[0].0, s[j].0));
                lemma_key_lt_trans(s[0].0, s[j].0, k);
            }
        }
    }
}

/// When `k` is present in a sorted sequence, its entry sits at `key_pos`.
pub proof fn lemma_key_pos_found<K: KeyOrd, T>(s: Seq<(K, T)>, k: K)
    requires
        sorted_entries(s),
        has_key(s, k),
    ensures
        0 <= key_pos(s, k) < s.len(),
        s[key_pos(s, k)].0 == k,
{
    lemma_key_pos_split(s, k);
    let i = choose|i: int| 0 <= i < s.len() && (#[trigger] s[i]).0 == k;
    let p = key_pos(s, k);
    assert(!key_lt(s[i].0, k));
    if i > p {
        assert(key_lt(s[p].0, s[i].0));
        assert(false);
    }
}

/// The index of an entry carrying `k` is `key_pos`.
pub proof fn lemma_key_pos_unique<K: KeyOrd, T>(s: Seq<(K, T)>, k: K, i: int)
    requires
        sorted_entries(s),
        0 <= i < s.len(),
        s[i].0 == k,
    ensures
        i == key_pos(s, k),
{
    assert(has_key(s, k));
    lemma_key_pos_found(s, k);
    lemma_sorted_unique_keys(s, i, key_pos(s, k));
}

/// When `k` is absent from a sorted sequence, every key from `key_pos` on
/// lies strictly above `k`.
pub proof fn lemma_key_pos_absent<K: KeyOrd, T>(s: Seq<(K, T)>, k: K)
    requires
        sorted_entries(s),
        !has_key(s, k),
    ensures
        forall|j: int| key_pos(s, k) <= j < s.len() ==> key_lt(k, (#[trigger] s[j]).0),
{
    lemma_key_pos_split(s, k);
    assert forall|j: int| key_pos(s, k) <= j < s.len() implies key_lt(k, (#[trigger] s[j]).0) by {
        if s[j].0 == k {
            assert(has_key(s, k));
        }
        lemma_key_not_lt(s[j].0, k);
    }
}

/// The boundary position is determined: any `p` with all keys below `k`
/// before it and none from it on equals `key_pos`.
pub proof fn lemma_key_pos_characterize<K: KeyOrd, T>(s: Seq<(K, T)>, k: K, p: int)
    requires
        0 <= p <= s.len(),
        forall|j: int| 0 <= j < p ==> key_lt((#[trigger] s[j]).0, k),
        forall|j: int| p <= j < s.len() ==> !key_lt((#[trigger] s[j]).0, k),
    ensures
        p == key_pos(s, k),
    decreases s.len(),
{
    if s.len() == 0 {
    } else if key_lt(s[0].0, k) {
        assert(p != 0);
        let sub = s.drop_first();
        assert forall|j: int| 0 <= j < p - 1 implies key_lt((#[trigger] sub[j]).0, k) by {
            assert(sub[j] == s[j + 1]);
        }
        assert forall|j: int| p - 1 <= j < sub.len() implies !key_lt((#[trigger] sub[j]).0, k) by {
            assert(sub[j] == s[j + 1]);
        }
        lemma_key_pos_characterize(sub, k, p - 1);
    } else {
        assert(p == 0);
    }
}

/// Removing any entry keeps a sorted sequence sorted.
pub proof fn lemma_remove_sorted<K: KeyOrd, T>(s: Seq<(K, T)>, i: int)
    requires
        sorted_entries(s),
        0 <= i < s.len(),
    ensures
        sorted_entries(s.remove(i)),
{
    let r = s.remove(i);
    assert forall|a: int, b: int| 0 <= a < b < r.len() implies #[trigger] key_lt(r[a].0, r[b].0) by {
        let a0 = if a < i {
            a
        } else {
            a + 1
        };
        let b0 = if b < i {
            b
        } else {
            b + 1
        };
        assert(r[a] == s[a0]);
        assert(r[b] == s[b0]);
        assert(key_lt(s[a0].0, s[b0].0));
    }
}

/// Writing under a key keeps the sequence sorted, and afterwards the key's
/// entry holds exactly the written value at `key_pos` of the original.
pub proof fn lemma_entry_insert_sorted<K: KeyOrd, T>(s: Seq<(K, T)>, k: K, v: T)
    requires
        sorted_entries(s),
    ensures
        sorted_entries(entry_insert(s, k, v)),
        has_key(entry_insert(s, k, v), k),
        key_pos(entry_insert(s, k, v), k) == key_pos(s, k),
        entry_insert(s, k, v)[key_pos(s, k)] == (k, v),
        entry_insert(s, k, v).len() == if has_key(s, k) {
            s.len()
        } else {
            s.len() + 1
        },
{
    let p = key_pos(s, k);
    let u = entry_insert(s, k, v);
    if has_key(s, k) {
        lemma_key_pos_found(s, k);
        assert forall|i: int, j: int| 0 <= i < j < u.len() implies #[trigger] key_lt(
            u[i].0,
            u[j].0,
        ) by {
            assert(u[i].0 == s[i].0);
            assert(u[j].0 == s[j].0);
            assert(key_lt(s[i].0, s[j].0));
        }
        assert(u[p] == (k, v));
        assert(has_key(u, k));
        lemma_key_pos_unique(u, k, p);
    } else {
        lemma_key_pos_split(s, k);
        lemma_key_pos_absent(s, k);
        assert forall|i: int, j: int| 0 <= i < j < u.len() implies #[trigger] key_lt(
            u[i].0,
            u[j].0,
        ) by {
            let i0 = if i < p {
                i
            } else {
                i - 1
            };
            let j0 = if j < p {
                j
            } else {
                j - 1
            };
            if i == p {
                assert(u[i] == (k, v));
                assert(u[j] == s[j0]);
                assert(key_lt(k, s[j0].0));
            } else if j == p {
                assert(u[j] == (k, v));
                assert(u[i] == s[i0]);
                assert(key_lt(s[i0].0, k));
            } else {
                assert(u[i] == s[i0]);
                assert(u[j] == s[j0]);
                if i0 < j0 {
                    assert(key_lt(s[i0].0, s[j0].0));
                } else {
                    assert(i0 == j0);
                    assert(i < p && p < j);
                    assert(key_lt(s[i0].0, k) && key_lt(k, s[j0].0));
                    lemma_key_lt_trans(s[i0].0, k, s[j0].0);
                }
            }
        }
        assert(u[p] == (k, v));
        assert(has_key(u, k));
        lemma_key_pos_unique(u, k, p);
    }
}

/// Replacing the value of one entry, keeping its key, keeps the sequence
/// sorted.
pub proof fn lemma_update_value_sorted<K: KeyOrd, T>(s: Seq<(K, T)>, i: int, v: T)
    requires
        sorted_entries(s),
        0 <= i < s.len(),
    ensures
        sorted_entries(s.update(i, (s[i].0, v))),
{
    let u = s.update(i, (s[i].0, v));
    assert forall|a: int, b: int| 0 <= a < b < u.len() implies #[trigger] key_lt(u[a].0, u[b].0) by {
        assert(u[a].0 == s[a].0);
        assert(u[b].0 == s[b].0);
        assert(key_lt(s[a].0, s[b].0));
    }
}

/// Keeping a masked subsequence of a sorted sequence keeps it sorted, and
/// every kept or dropped element stems from the original.
pub proof fn lemma_mask_sorted<K: KeyOrd, T>(s: Seq<(K, T)>, keep: Seq<bool>)
    requires
        sorted_entries(s),
        keep.len() == s.len(),
    ensures
        sorted_entries(mask_keep(s, keep)),
        sorted_entries(mask_drop(s, keep)),
        forall|x: (K, T)| mask_keep(s, keep).contains(x) ==> s.contains(x),
        forall|x: (K, T)| mask_drop(s, keep).contains(x) ==> s.contains(x),
    decreases s.len(),
{
    if s.len() == 0 {
    } else {
        let init = s.drop_last();
        assert(sorted_entries(init)) by {
            assert forall|i: int, j: int| 0 <= i < j < init.len() implies #[trigger] key_lt(
                init[i].0,
                init[j].0,
            ) by {
                assert(init[i] == s[i]);
                assert(init[j] == s[j]);
                assert(key_lt(s[i].0, s[j].0));
            }
        }
        lemma_mask_sorted(init, keep.drop_last());
        assert forall|x: (K, T)| init.contains(x) implies s.contains(x) by {
            let i = choose|i: int| 0 <= i < init.len() && init[i] == x;
            assert(s[i] == x);
        }
        lemma_mask_push_sorted(s, keep, mask_keep(init, keep.drop_last()));
        lemma_mask_push_sorted(s, keep, mask_drop(init, keep.drop_last()));
    }
}

/// Helper: pushing the last element of `s` onto a sorted selection of its
/// prefix keeps the selection sorted.
proof fn lemma_mask_push_sorted<K: KeyOrd, T>(s: Seq<(K, T)>, keep: Seq<bool>, prev: Seq<(K, T)>)
    requires
        sorted_entries(s),
        s.len() > 0,
        sorted_entries(prev),
        forall|x: (K, T)| prev.contains(x) ==> s.drop_last().contains(x),
    ensures
        sorted_entries(prev.push(s.last())),
        forall|x: (K, T)| prev.push(s.last()).contains(x) ==> s.contains(x),
{
    let out = prev.push(s.last());
    assert forall|i: int, j: int| 0 <= i < j < out.len() implies #[trigger] key_lt(
        out[i].0,
        out[j].0,
    ) by {
        if j < prev.len() {
            assert(out[i] == prev[i]);
            assert(out[j] == prev[j]);
            assert(key_lt(prev[i].0, prev[j].0));
        } else {
            assert(out[j] == s.last());
            assert(out[i] == prev[i]);
            assert(prev.contains(prev[i]));
            let i0 = choose|i0: int|
                0 <= i0 < s.drop_last().len() && s.drop_last()[i0] == prev[i];
            assert(s[i0] == prev[i]);
            assert(key_lt(s[i0].0, s[s.len() - 1].0));
        }
    }
    assert forall|x: (K, T)| out.contains(x) implies s.contains(x) by {
        let i = choose|i: int| 0 <= i < out.len() && out[i] == x;
        if i < prev.len() {
            assert(prev.contains(x));
            let i0 = choose|i0: int|
                0 <= i0 < s.drop_last().len() && s.drop_last()[i0] == x;
            assert(s[i0] == x);
        } else {
            assert(s[s.len() - 1] == x);
        }
    }
}

/// The keys of a batch of records, in order.
pub open spec fn rec_keys<K: KeyOrd, T>(recs: Seq<(K, T)>) -> Seq<K> {
    recs.map_values(|r: (K, T)| r.0)
}

/// Writing under `k` affects no other key's presence.
pub proof fn lemma_entry_insert_has_key<K: KeyOrd, T>(s: Seq<(K, T)>, k: K, v: T, k2: K)
    requires
        sorted_entries(s),
    ensures
        has_key(entry_insert(s, k, v), k2) == (has_key(s, k2) || k2 == k),
{
    let u = entry_insert(s, k, v);
    lemma_entry_insert_sorted(s, k, v);
    let p = key_pos(s, k);
    if has_key(s, k) {
        lemma_key_pos_found(s, k);
        if has_key(u, k2) {
            let i = choose|i: int| 0 <= i < u.len() && (#[trigger] u[i]).0 == k2;
            if i == p {
                assert(k2 == k);
            } else {
                assert(u[i] == s[i]);
                assert(has_key(s, k2));
            }
        }
        if has_key(s, k2) {
            let i = choose|i: int| 0 <= i < s.len() && (#[trigger] s[i]).0 == k2;
            if i == p {
                assert(s[p].0 == k);
                assert(u[p].0 == k);
                assert(has_key(u, k2));
            } else {
                assert(u[i] == s[i]);
                assert(has_key(u, k2));
            }
        }
        if k2 == k {
            assert(u[p].0 == k);
            assert(has_key(u, k2));
        }
    } else {
        lemma_key_pos_bounds(s, k);
        if has_key(u, k2) {
            let i = choose|i: int| 0 <= i < u.len() && (#[trigger] u[i]).0 == k2;
            if i == p {
                assert(k2 == k);
            } else if i < p {
                assert(u[i] == s[i]);
                assert(has_key(s, k2));
            } else {
                assert(u[i] == s[i - 1]);
                assert(has_key(s, k2));
            }
        }
        if has_key(s, k2) {
            let i = choose|i: int| 0 <= i < s.len() && (#[trigger] s[i]).0 == k2;
            if i < p {
                assert(u[i] == s[i]);
                assert(has_key(u, k2));
            } else {
                assert(u[i + 1] == s[i]);
                assert(has_key(u, k2));
            }
        }
        if k2 == k {
            assert(u[p].0 == k);
            assert(has_key(u, k2));
        }
    }
}

/// Inserting a fresh key and removing it again restores the sequence.
pub proof fn lemma_insert_then_remove<K: KeyOrd, T>(s: Seq<(K, T)>, k: K, v: T)
    requires
        sorted_entries(s),
        !has_key(s, k),
    ensures
        entry_remove(entry_insert(s, k, v), k) == s,
{
    lemma_entry_insert_sorted(s, k, v);
    lemma_key_pos_bounds(s, k);
    assert(entry_insert(s, k, v).remove(key_pos(s, k)) =~= s);
}

/// Removing a key affects no other key's presence.
pub proof fn lemma_entry_remove_has_key<K: KeyOrd, T>(s: Seq<(K, T)>, k: K, k2: K)
    requires
        sorted_entries(s),
    ensures
        has_key(entry_remove(s, k), k2) == (has_key(s, k2) && k2 != k),
{
    let u = entry_remove(s, k);
    if has_key(s, k) {
        lemma_key_pos_found(s, k);
        let p = key_pos(s, k);
        if has_key(u, k2) {
            let i = choose|i: int| 0 <= i < u.len() && (#[trigger] u[i]).0 == k2;
            let i0: int = if i < p {
                i
            } else {
                i + 1
            };
            assert(u[i] == s[i0]);
            assert(has_key(s, k2));
            if k2 == k {
                lemma_sorted_unique_keys(s, i0, p);
            }
        }
        if has_key(s, k2) && k2 != k {
            let i = choose|i: int| 0 <= i < s.len() && (#[trigger] s[i]).0 == k2;
            assert(i != p);
            let i1: int = if i < p {
                i
            } else {
                i - 1
            };
            assert(u[i1] == s[i]);
            assert(has_key(u, k2));
        }
    }
}

/// Removing a key commutes with writing under a different key.
pub proof fn lemma_remove_insert_commute<K: KeyOrd, T>(x: Seq<(K, T)>, k: K, rk: K, rv: T)
    requires
        sorted_entries(x),
        has_key(x, k),
        rk != k,
    ensures
        entry_remove(entry_insert(x, rk, rv), k) == entry_insert(entry_remove(x, k), rk, rv),
{
    let p = key_pos(x, k);
    lemma_key_pos_found(x, k);
    lemma_entry_insert_sorted(x, rk, rv);
    lemma_remove_sorted(x, p);
    let u = entry_insert(x, rk, rv);
    let w = x.remove(p);
    assert(w == entry_remove(x, k));
    let q = key_pos(x, rk);
    lemma_key_pos_split(x, rk);
    if has_key(x, rk) {
        lemma_key_pos_found(x, rk);
        lemma_sorted_unique_keys(x, p, p);
        assert(p != q);
        assert(u[p] == x[p]);
        assert(has_key(u, k)) by {
            assert(0 <= p < u.len() && u[p].0 == k);
        }
        lemma_key_pos_unique(u, k, p);
        let q2: int = if q < p {
            q
        } else {
            q - 1
        };
        assert(w[q2] == x[q]);
        assert(has_key(w, rk)) by {
            assert(0 <= q2 < w.len() && w[q2].0 == rk);
        }
        lemma_key_pos_unique(w, rk, q2);
        assert(u.remove(p) =~= w.update(q2, (rk, rv))) by {
            assert forall|i: int| 0 <= i < u.remove(p).len() implies u.remove(p)[i] == w.update(
                q2,
                (rk, rv),
            )[i] by {
                let i0: int = if i < p {
                    i
                } else {
                    i + 1
                };
                assert(u.remove(p)[i] == u[i0]);
                if i0 == q {
                    assert(u[q] == (rk, rv));
                    assert(i == q2);
                } else {
                    assert(u[i0] == x[i0]);
                    assert(w.update(q2, (rk, rv))[i] == w[i]);
                    assert(w[i] == x[i0]);
                }
            }
        }
    } else {
        lemma_key_pos_absent(x, rk);
        let p2: int = if q <= p {
            p + 1
        } else {
            p
        };
        assert(u[p2] == x[p]);
        assert(has_key(u, k)) by {
            assert(0 <= p2 < u.len() && u[p2].0 == k);
        }
        lemma_key_pos_unique(u, k, p2);
        assert(!has_key(w, rk)) by {
            if has_key(w, rk) {
                let i = choose|i: int| 0 <= i < w.len() && (#[trigger] w[i]).0 == rk;
                let i0: int = if i < p {
                    i
                } else {
                    i + 1
                };
                assert(w[i] == x[i0]);
                assert(has_key(x, rk));
            }
        }
        let q2: int = if p < q {
            q - 1
        } else {
            q
        };
        assert(q2 == key_pos(w, rk)) by {
            assert forall|j: int| 0 <= j < q2 implies key_lt((#[trigger] w[j]).0, rk) by {
                let j0: int = if j < p {
                    j
                } else {
                    j + 1
                };
                assert(w[j] == x[j0]);
                assert(key_lt(x[j0].0, rk));
            }
            assert forall|j: int| q2 <= j < w.len() implies !key_lt((#[trigger] w[j]).0, rk) by {
                let j0: int = if j < p {
                    j
                } else {
                    j + 1
                };
                assert(w[j] == x[j0]);
                assert(!key_lt(x[j0].0, rk));
            }
            lemma_key_pos_characterize(w, rk, q2);
        }
        assert(u.remove(p2) =~= w.insert(q2, (rk, rv))) by {
            assert forall|i: int| 0 <= i < u.remove(p2).len() implies u.remove(p2)[i] == w.insert(
                q2,
                (rk, rv),
            )[i] by {
                let i0: int = if i < p2 {
                    i
                } else {
                    i + 1
                };
                assert(u.remove(p2)[i] == u[i0]);
                if i0 == q {
                    assert(u[q] == (rk, rv));
                    assert(i == q2);
                    assert(w.insert(q2, (rk, rv))[i] == (rk, rv));
                } else {
                    let iu: int = if i0 < q {
                        i0
                    } else {
                        i0 - 1
                    };
                    assert(u[i0] == x[iu]);
                    if i < q2 {
                        assert(w.insert(q2, (rk, rv))[i] == w[i]);
                        assert(w[i] == x[if i < p {
                            i
                        } else {
                            i + 1
                        }]);
                    } else {
                        assert(w.insert(q2, (rk, rv))[i] == w[i - 1]);
                        assert(w[i - 1] == x[if i - 1 < p {
                            i - 1
                        } else {
                            i
                        }]);
                    }
                }
            }
        }
    }
}

/// Removing a key commutes with a bulk write that never touches it.
pub proof fn lemma_remove_bulk_commute<K: KeyOrd, T>(x: Seq<(K, T)>, recs: Seq<(K, T)>, k: K)
    requires
        sorted_entries(x),
        has_key(x, k),
        forall|i: int| 0 <= i < recs.len() ==> (#[trigger] recs[i]).0 != k,
    ensures
        entry_remove(bulk_insert(x, recs), k) == bulk_insert(entry_remove(x, k), recs),
    decreases recs.len(),
{
    if recs.len() > 0 {
        let rk = recs[0].0;
        let rv = recs[0].1;
        let x1 = entry_insert(x, rk, rv);
        lemma_remove_insert_commute(x, k, rk, rv);
        lemma_entry_insert_sorted(x, rk, rv);
        lemma_entry_insert_has_key(x, rk, rv, k);
        assert forall|i: int| 0 <= i < recs.drop_first().len() implies (#[trigger] recs.drop_first(
        )[i]).0 != k by {
            assert(recs.drop_first()[i] == recs[i + 1]);
        }
        lemma_remove_bulk_commute(x1, recs.drop_first(), k);
        assert(bulk_insert(entry_remove(x, k), recs) == bulk_insert(
            entry_insert(entry_remove(x, k), rk, rv),
            recs.drop_first(),
        ));
    }
}

/// Law: writing `v1` and then `v2` under one key `k` leaves exactly one
/// entry at `k`, holding `v2`, and the second write displaces `v1`.
pub proof fn lemma_add_replaces<K: KeyOrd, T>(s: Seq<(K, T)>, k: K, v1: T, v2: T)
    requires
        sorted_entries(s),
    ensures
        ({
            let s1 = entry_insert(s, k, v1);
            let s2 = entry_insert(s1, k, v2);
            &&& displaced_by_insert(s1, k) == Some(v1)
            &&& sorted_entries(s2)
            &&& has_key(s2, k)
            &&& s2[key_pos(s2, k)] == (k, v2)
            &&& (forall|i: int|
                0 <= i < s2.len() && (#[trigger] s2[i]).0 == k ==> i == key_pos(s2, k))
            &&& s2.len() == s1.len()
        }),
{
    let s1 = entry_insert(s, k, v1);
    let s2 = entry_insert(s1, k, v2);
    lemma_entry_insert_sorted(s, k, v1);
    lemma_entry_insert_sorted(s1, k, v2);
    assert forall|i: int| 0 <= i < s2.len() && (#[trigger] s2[i]).0 == k implies i == key_pos(
        s2,
        k,
    ) by {
        lemma_key_pos_unique(s2, k, i);
    }
}

/// Law: a bulk add of records at fresh, pairwise-distinct keys followed by
/// a bulk remove of exactly those keys, in the same order, returns the
/// sequence to its prior contents.
pub proof fn lemma_bulk_round_trip<K: KeyOrd, T>(s: Seq<(K, T)>, recs: Seq<(K, T)>)
    requires
        sorted_entries(s),
        forall|i: int| 0 <= i < recs.len() ==> !has_key(s, (#[trigger] recs[i]).0),
        forall|i: int, j: int|
            0 <= i < j < recs.len() ==> (#[trigger] recs[i]).0 != (#[trigger] recs[j]).0,
    ensures
        bulk_remove_keys(bulk_insert(s, recs), rec_keys(recs)) == s,
    decreases recs.len(),
{
    if recs.len() > 0 {
        let k0 = recs[0].0;
        let v0 = recs[0].1;
        let rest = recs.drop_first();
        let s1 = entry_insert(s, k0, v0);
        lemma_entry_insert_sorted(s, k0, v0);
        assert(rec_keys(recs)[0] == k0);
        assert(rec_keys(recs).drop_first() =~= rec_keys(rest)) by {
            assert forall|i: int|
                0 <= i < rest.len() implies rec_keys(recs).drop_first()[i] == rec_keys(
                rest,
            )[i] by {
                assert(rec_keys(recs)[i + 1] == recs[i + 1].0);
                assert(rest[i] == recs[i + 1]);
            }
        }
        assert forall|i: int| 0 <= i < rest.len() implies (#[trigger] rest[i]).0 != k0 by {
            assert(rest[i] == recs[i + 1]);
        }
        lemma_remove_bulk_commute(s1, rest, k0);
        lemma_insert_then_remove(s, k0, v0);
        assert forall|i: int| 0 <= i < rest.len() implies !has_key(
            s,
            (#[trigger] rest[i]).0,
        ) by {
            assert(rest[i] == recs[i + 1]);
        }
        assert forall|i: int, j: int| 0 <= i < j < rest.len() implies (#[trigger] rest[i]).0 != (
        #[trigger] rest[j]).0 by {
            assert(rest[i] == recs[i + 1]);
            assert(rest[j] == recs[j + 1]);
        }
        lemma_bulk_round_trip(s, rest);
        assert(bulk_remove_keys(bulk_insert(s, recs), rec_keys(recs)) == bulk_remove_keys(
            entry_remove(bulk_insert(s1, rest), k0),
            rec_keys(rest),
        ));
    }
}



} // verus!
