//! Lists of entries kept in strictly ascending key order, and the finite map
//! that such a list stands for.

use bytes::Bytes;
use vstd::prelude::*;
use crate::buf::{bytes_as_slice, bytes_view};
use crate::key::{
    compare_bytes, lemma_lex_asymmetric, lemma_lex_le_lt, lemma_lex_total, lemma_lex_transitive,
    lex_lt, ByteOrder,
};

verus! {

/// The keys of `s` ascend strictly.
pub open spec fn ascending_keys<V>(s: Seq<(Seq<u8>, V)>) -> bool {
    forall|i: int, j: int| 0 <= i < j < s.len() ==> lex_lt((#[trigger] s[i]).0, (#[trigger] s[j]).0)
}

/// `p` is the first position of `s` whose key is not below `key`.
pub open spec fn is_lower_bound<V>(s: Seq<(Seq<u8>, V)>, key: Seq<u8>, p: int) -> bool {
    &&& 0 <= p <= s.len()
    &&& forall|j: int| 0 <= j < p ==> lex_lt((#[trigger] s[j]).0, key)
    &&& forall|j: int| p <= j < s.len() ==> !lex_lt((#[trigger] s[j]).0, key)
}

/// Some entry of `s` has the key `k`.
pub open spec fn has_key<V>(s: Seq<(Seq<u8>, V)>, k: Seq<u8>) -> bool {
    exists|i: int| 0 <= i < s.len() && (#[trigger] s[i]).0 == k
}

/// The position of an entry of `s` with the key `k`.
pub open spec fn index_of<V>(s: Seq<(Seq<u8>, V)>, k: Seq<u8>) -> int {
    choose|i: int| 0 <= i < s.len() && (#[trigger] s[i]).0 == k
}

/// The map from the keys of `s` to their values.
pub open spec fn as_map<V>(s: Seq<(Seq<u8>, V)>) -> Map<Seq<u8>, V> {
    Map::new(|k: Seq<u8>| has_key(s, k), |k: Seq<u8>| s[index_of(s, k)].1)
}

/// In an ascending list no key occurs twice.
pub proof fn lemma_keys_distinct<V>(s: Seq<(Seq<u8>, V)>, i: int, j: int)
    requires
        ascending_keys(s),
        0 <= i < s.len(),
        0 <= j < s.len(),
        s[i].0 == s[j].0,
    ensures
        i == j,
{
    lemma_lex_asymmetric(s[i].0, s[i].0);
    if i < j {
        assert(lex_lt(s[i].0, s[j].0));
    } else if j < i {
        assert(lex_lt(s[j].0, s[i].0));
    }
}

/// The map of an ascending list holds each entry of the list.
pub proof fn lemma_entry_in_map<V>(s: Seq<(Seq<u8>, V)>, i: int)
    requires
        ascending_keys(s),
        0 <= i < s.len(),
    ensures
        has_key(s, s[i].0),
        index_of(s, s[i].0) == i,
        as_map(s).contains_key(s[i].0),
        as_map(s)[s[i].0] == s[i].1,
{
    assert(has_key(s, s[i].0));
    lemma_keys_distinct(s, i, index_of(s, s[i].0));
}

/// At the lower bound of `k` stands the entry of `k`, or `k` has none.
pub proof fn lemma_lower_bound_decides<V>(s: Seq<(Seq<u8>, V)>, k: Seq<u8>, p: int)
    requires
        ascending_keys(s),
        is_lower_bound(s, k, p),
    ensures
        has_key(s, k) <==> (p < s.len() && s[p].0 == k),
        has_key(s, k) ==> index_of(s, k) == p,
{
    if has_key(s, k) {
        let i = index_of(s, k);
        lemma_lex_asymmetric(k, k);
        assert(!(0 <= i < p)) by {
            if 0 <= i < p {
                assert(lex_lt(s[i].0, k));
            }
        }
        if i > p {
            // s[p] < s[i] == k contradicts the lower bound
            assert(lex_lt(s[p].0, s[i].0));
        }
    }
}

/// A key below the lower bound's entry, or beyond the end, is ordered
/// against every entry.
pub proof fn lemma_lower_bound_above<V>(s: Seq<(Seq<u8>, V)>, k: Seq<u8>, p: int, j: int)
    requires
        ascending_keys(s),
        is_lower_bound(s, k, p),
        p <= j < s.len(),
        !has_key(s, k),
    ensures
        lex_lt(k, s[j].0),
{
    lemma_lex_total(k, s[j].0);
    assert(has_key(s, k) || s[j].0 != k);
}

/// Inserting a new key at its lower bound keeps the list ascending and adds
/// the entry to its map.
pub proof fn lemma_insert_entry<V>(s: Seq<(Seq<u8>, V)>, k: Seq<u8>, v: V, p: int)
    requires
        ascending_keys(s),
        is_lower_bound(s, k, p),
        !has_key(s, k),
    ensures
        ascending_keys(s.insert(p, (k, v))),
        as_map(s.insert(p, (k, v))) == as_map(s).insert(k, v),
{
    let t = s.insert(p, (k, v));
    assert forall|i: int, j: int| 0 <= i < j < t.len() implies lex_lt(
        (#[trigger] t[i]).0,
        (#[trigger] t[j]).0,
    ) by {
        if j == p {
            assert(t[i] == s[i]);
        } else if i == p {
            assert(t[j] == s[j - 1]);
            lemma_lower_bound_above(s, k, p, j - 1);
        } else {
            let i0 = if i < p { i } else { i - 1 };
            let j0 = if j < p { j } else { j - 1 };
            assert(t[i] == s[i0]);
            assert(t[j] == s[j0]);
        }
    }
    assert forall|key: Seq<u8>| has_key(t, key) <==> (key == k || has_key(s, key)) by {
        if has_key(t, key) {
            let i = index_of(t, key);
            if i < p {
                assert(t[i] == s[i]);
            } else if i > p {
                assert(t[i] == s[i - 1]);
            }
        }
        if key == k {
            assert(t[p].0 == k);
        } else if has_key(s, key) {
            let i = index_of(s, key);
            let i1 = if i < p { i } else { i + 1 };
            assert(t[i1] == s[i]);
        }
    }
    assert forall|key: Seq<u8>| has_key(t, key) implies #[trigger] as_map(t)[key] == as_map(
        s,
    ).insert(k, v)[key] by {
        let i = index_of(t, key);
        if i == p {
        } else {
            let i0 = if i < p { i } else { i - 1 };
            assert(t[i] == s[i0]);
            lemma_entry_in_map(s, i0);
            lemma_lex_asymmetric(k, k);
        }
    }
    assert(as_map(t) =~= as_map(s).insert(k, v));
}

/// Replacing the value of an entry keeps the list ascending and updates its
/// map.
pub proof fn lemma_update_entry<V>(s: Seq<(Seq<u8>, V)>, p: int, v: V)
    requires
        ascending_keys(s),
        0 <= p < s.len(),
    ensures
        ascending_keys(s.update(p, (s[p].0, v))),
        as_map(s.update(p, (s[p].0, v))) == as_map(s).insert(s[p].0, v),
{
    let k = s[p].0;
    let t = s.update(p, (k, v));
    assert forall|i: int, j: int| 0 <= i < j < t.len() implies lex_lt(
        (#[trigger] t[i]).0,
        (#[trigger] t[j]).0,
    ) by {
        assert(t[i].0 == s[i].0);
        assert(t[j].0 == s[j].0);
    }
    assert forall|key: Seq<u8>| has_key(t, key) <==> (key == k || has_key(s, key)) by {
        if has_key(t, key) {
            let i = index_of(t, key);
            assert(t[i].0 == s[i].0);
        }
        if key == k {
            assert(t[p].0 == k);
        } else if has_key(s, key) {
            let i = index_of(s, key);
            assert(t[i].0 == s[i].0);
        }
    }
    assert forall|key: Seq<u8>| has_key(t, key) implies #[trigger] as_map(t)[key] == as_map(
        s,
    ).insert(k, v)[key] by {
        let i = index_of(t, key);
        lemma_entry_in_map(t, i);
        if i != p {
            assert(t[i] == s[i]);
            lemma_entry_in_map(s, i);
            if key == k {
                lemma_keys_distinct(s, i, p);
            }
        }
    }
    assert(as_map(t) =~= as_map(s).insert(k, v));
}

/// Removing an entry keeps the list ascending and removes its key from the
/// map.
pub proof fn lemma_remove_entry<V>(s: Seq<(Seq<u8>, V)>, p: int)
    requires
        ascending_keys(s),
        0 <= p < s.len(),
    ensures
        ascending_keys(s.remove(p)),
        as_map(s.remove(p)) == as_map(s).remove(s[p].0),
{
    let k = s[p].0;
    let t = s.remove(p);
    assert forall|i: int, j: int| 0 <= i < j < t.len() implies lex_lt(
        (#[trigger] t[i]).0,
        (#[trigger] t[j]).0,
    ) by {
        let i0 = if i < p { i } else { i + 1 };
        let j0 = if j < p { j } else { j + 1 };
        assert(t[i] == s[i0]);
        assert(t[j] == s[j0]);
    }
    assert forall|key: Seq<u8>| has_key(t, key) <==> (key != k && has_key(s, key)) by {
        if has_key(t, key) {
            let i = index_of(t, key);
            let i0 = if i < p { i } else { i + 1 };
            assert(t[i] == s[i0]);
            if key == k {
                lemma_keys_distinct(s, i0, p);
            }
        }
        if key != k && has_key(s, key) {
            let i = index_of(s, key);
            let i1 = if i < p { i } else { i - 1 };
            assert(t[i1] == s[i]);
        }
    }
    assert forall|key: Seq<u8>| has_key(t, key) implies #[trigger] as_map(t)[key] == as_map(
        s,
    ).remove(k)[key] by {
        let i = index_of(t, key);
        let i0 = if i < p { i } else { i + 1 };
        assert(t[i] == s[i0]);
        lemma_entry_in_map(t, i);
        lemma_entry_in_map(s, i0);
    }
    assert(as_map(t) =~= as_map(s).remove(k));
}

/// A head of an ascending list is ascending, holds exactly the keys of the
/// list that stand in it, and gives them the same values.
pub proof fn lemma_head_entries<V>(s: Seq<(Seq<u8>, V)>, n: int)
    requires
        ascending_keys(s),
        0 <= n <= s.len(),
    ensures
        ascending_keys(s.subrange(0, n)),
        forall|k: Seq<u8>| #[trigger]
            has_key(s.subrange(0, n), k) <==> (has_key(s, k) && index_of(s, k) < n),
        forall|k: Seq<u8>|
            has_key(s.subrange(0, n), k) ==> #[trigger] as_map(s.subrange(0, n))[k] == as_map(s)[k],
{
    let t = s.subrange(0, n);
    assert forall|i: int, j: int| 0 <= i < j < t.len() implies lex_lt(
        (#[trigger] t[i]).0,
        (#[trigger] t[j]).0,
    ) by {
        assert(t[i] == s[i]);
        assert(t[j] == s[j]);
    }
    assert forall|k: Seq<u8>| #[trigger]
        has_key(t, k) <==> (has_key(s, k) && index_of(s, k) < n) by {
        if has_key(t, k) {
            let i = index_of(t, k);
            assert(t[i] == s[i]);
            lemma_entry_in_map(s, i);
        }
        if has_key(s, k) && index_of(s, k) < n {
            let i = index_of(s, k);
            assert(t[i] == s[i]);
        }
    }
    assert forall|k: Seq<u8>| has_key(t, k) implies #[trigger] as_map(t)[k] == as_map(s)[k] by {
        let i = index_of(t, k);
        assert(t[i] == s[i]);
        lemma_entry_in_map(t, i);
        lemma_entry_in_map(s, i);
    }
}

/// The first entry of an ascending list has the least key.
pub proof fn lemma_first_is_least<V>(s: Seq<(Seq<u8>, V)>, k: Seq<u8>)
    requires
        ascending_keys(s),
        has_key(s, k),
        k != s[0].0,
    ensures
        lex_lt(s[0].0, k),
{
    let i = index_of(s, k);
    assert(lex_lt(s[0].0, s[i].0));
}

/// The first position of `s` whose key is not below `key`.
pub open spec fn lower_bound_of<V>(s: Seq<(Seq<u8>, V)>, key: Seq<u8>) -> int {
    choose|p: int| is_lower_bound(s, key, p)
}

/// A list has at most one lower bound for a key.
pub proof fn lemma_lower_bound_unique<V>(s: Seq<(Seq<u8>, V)>, key: Seq<u8>, p: int, q: int)
    requires
        is_lower_bound(s, key, p),
        is_lower_bound(s, key, q),
    ensures
        p == q,
{
    if p < q {
        assert(lex_lt(s[p].0, key));
    } else if q < p {
        assert(lex_lt(s[q].0, key));
    }
}

/// An ascending list has a lower bound for every key.
pub proof fn lemma_lower_bound_exists<V>(s: Seq<(Seq<u8>, V)>, key: Seq<u8>)
    requires
        ascending_keys(s),
    ensures
        is_lower_bound(s, key, lower_bound_of(s, key)),
    decreases s.len(),
{
    if s.len() == 0 {
        assert(is_lower_bound(s, key, 0));
    } else {
        let head = s.drop_last();
        assert(ascending_keys(head)) by {
            assert forall|i: int, j: int| 0 <= i < j < head.len() implies lex_lt(
                (#[trigger] head[i]).0,
                (#[trigger] head[j]).0,
            ) by {
                assert(head[i] == s[i]);
                assert(head[j] == s[j]);
            }
        }
        lemma_lower_bound_exists(head, key);
        let p = lower_bound_of(head, key);
        let last = s.len() - 1;
        if lex_lt(s[last].0, key) {
            assert forall|j: int| 0 <= j < s.len() implies lex_lt((#[trigger] s[j]).0, key) by {
                if j < last {
                    assert(lex_lt(s[j].0, s[last].0));
                    lemma_lex_transitive(s[j].0, s[last].0, key);
                }
            }
            assert(is_lower_bound(s, key, s.len() as int));
        } else {
            assert forall|j: int| 0 <= j < p implies lex_lt((#[trigger] s[j]).0, key) by {
                assert(head[j] == s[j]);
            }
            assert forall|j: int| p <= j < s.len() implies !lex_lt((#[trigger] s[j]).0, key) by {
                if j < last {
                    assert(head[j] == s[j]);
                }
            }
            assert(is_lower_bound(s, key, p));
        }
    }
}

/// The list `s` with `v` stored under `k`: in place of the value `k` had, or
/// as a new entry where the order puts it.
pub open spec fn put_entry<V>(s: Seq<(Seq<u8>, V)>, k: Seq<u8>, v: V) -> Seq<(Seq<u8>, V)> {
    let p = lower_bound_of(s, k);
    if p < s.len() && s[p].0 == k {
        s.update(p, (k, v))
    } else {
        s.insert(p, (k, v))
    }
}

/// The list `s` without the entry of `k`, if it has one.
pub open spec fn drop_entry<V>(s: Seq<(Seq<u8>, V)>, k: Seq<u8>) -> Seq<(Seq<u8>, V)> {
    let p = lower_bound_of(s, k);
    if p < s.len() && s[p].0 == k {
        s.remove(p)
    } else {
        s
    }
}

/// The value that `s` holds under `k`, if any.
pub open spec fn entry_of<V>(s: Seq<(Seq<u8>, V)>, k: Seq<u8>) -> Option<V> {
    if has_key(s, k) {
        Some(s[index_of(s, k)].1)
    } else {
        None
    }
}

/// Storing a value under a key keeps the list ascending and does to its map
/// what `Map::insert` does.
pub proof fn lemma_put_entry<V>(s: Seq<(Seq<u8>, V)>, k: Seq<u8>, v: V)
    requires
        ascending_keys(s),
    ensures
        ascending_keys(put_entry(s, k, v)),
        as_map(put_entry(s, k, v)) == as_map(s).insert(k, v),
        has_key(s, k) ==> put_entry(s, k, v).len() == s.len(),
        !has_key(s, k) ==> put_entry(s, k, v).len() == s.len() + 1,
{
    lemma_lower_bound_exists(s, k);
    let p = lower_bound_of(s, k);
    lemma_lower_bound_decides(s, k, p);
    if p < s.len() && s[p].0 == k {
        lemma_update_entry(s, p, v);
    } else {
        lemma_insert_entry(s, k, v, p);
    }
}

/// Dropping a key keeps the list ascending and does to its map what
/// `Map::remove` does.
pub proof fn lemma_drop_entry<V>(s: Seq<(Seq<u8>, V)>, k: Seq<u8>)
    requires
        ascending_keys(s),
    ensures
        ascending_keys(drop_entry(s, k)),
        as_map(drop_entry(s, k)) == as_map(s).remove(k),
{
    lemma_lower_bound_exists(s, k);
    let p = lower_bound_of(s, k);
    lemma_lower_bound_decides(s, k, p);
    if p < s.len() && s[p].0 == k {
        lemma_remove_entry(s, p);
    } else {
        assert(as_map(s) =~= as_map(s).remove(k));
    }
}

/// Storing under a key gives the same list whether or not the key was
/// dropped first.
pub proof fn lemma_put_after_drop<V>(s: Seq<(Seq<u8>, V)>, k: Seq<u8>, v: V)
    requires
        ascending_keys(s),
    ensures
        put_entry(drop_entry(s, k), k, v) == put_entry(s, k, v),
{
    lemma_lower_bound_exists(s, k);
    let p = lower_bound_of(s, k);
    lemma_lower_bound_decides(s, k, p);
    if p < s.len() && s[p].0 == k {
        let t = s.remove(p);
        lemma_remove_entry(s, p);
        assert(is_lower_bound(t, k, p)) by {
            assert forall|j: int| 0 <= j < p implies lex_lt((#[trigger] t[j]).0, k) by {
                assert(t[j] == s[j]);
            }
            assert forall|j: int| p <= j < t.len() implies !lex_lt((#[trigger] t[j]).0, k) by {
                assert(t[j] == s[j + 1]);
            }
        }
        lemma_lower_bound_unique(t, k, p, lower_bound_of(t, k));
        if p < t.len() {
            lemma_lex_asymmetric(k, k);
            assert(t[p] == s[p + 1]);
            assert(lex_lt(s[p].0, s[p + 1].0));
        }
        assert(t.insert(p, (k, v)) =~= s.update(p, (k, v)));
    }
}

/// The first entry of a non-empty ascending list is the entry that dropping
/// its key removes.
pub proof fn lemma_drop_first_entry<V>(s: Seq<(Seq<u8>, V)>)
    requires
        ascending_keys(s),
        s.len() > 0,
    ensures
        drop_entry(s, s[0].0) == s.drop_first(),
{
    let k = s[0].0;
    assert(is_lower_bound(s, k, 0)) by {
        assert forall|j: int| 0 <= j < s.len() implies !lex_lt((#[trigger] s[j]).0, k) by {
            lemma_lex_asymmetric(s[j].0, k);
            if j > 0 {
                assert(lex_lt(s[0].0, s[j].0));
            }
        }
    }
    lemma_lower_bound_unique(s, k, 0, lower_bound_of(s, k));
    assert(s.remove(0) =~= s.drop_first());
}

/// The entries of a list of buffers and values, as mathematical values.
pub open spec fn entries_view<V: View>(s: Seq<(Bytes, V)>) -> Seq<(Seq<u8>, V::V)> {
    Seq::new(s.len(), |i: int| (bytes_view(s[i].0), s[i].1@))
}

/// The lower bound of `key` in an ascending list.
pub(crate) fn lower_bound<V: View>(entries: &Vec<(Bytes, V)>, key: &[u8]) -> (p: usize)
    requires
        ascending_keys(entries_view(entries@)),
    ensures
        is_lower_bound(entries_view(entries@), key@, p as int),
        p == lower_bound_of(entries_view(entries@), key@),
{
    let ghost views = entries_view(entries@);
    let mut lo: usize = 0;
    let mut hi: usize = entries.len();
    while lo < hi
        invariant
            0 <= lo <= hi <= entries.len(),
            views == entries_view(entries@),
            ascending_keys(views),
            forall|j: int| 0 <= j < lo ==> lex_lt((#[trigger] views[j]).0, key@),
            forall|j: int| hi <= j < entries.len() ==> !lex_lt((#[trigger] views[j]).0, key@),
        decreases hi - lo,
    {
        let mid: usize = lo + (hi - lo) / 2;
        let ghost probe = views[mid as int].0;
        match compare_bytes(bytes_as_slice(&entries[mid].0), key) {
            ByteOrder::Less => {
                assert forall|j: int| 0 <= j < mid + 1 implies lex_lt(
                    (#[trigger] views[j]).0,
                    key@,
                ) by {
                    if j < mid {
                        lemma_lex_transitive(views[j].0, probe, key@);
                    }
                }
                lo = mid + 1;
            },
            _ => {
                assert forall|j: int| mid <= j < entries.len() implies !lex_lt(
                    (#[trigger] views[j]).0,
                    key@,
                ) by {
                    lemma_lex_asymmetric(probe, key@);
                    if mid < j && lex_lt(views[j].0, key@) {
                        lemma_lex_le_lt(probe, views[j].0, key@);
                    }
                }
                hi = mid;
            },
        }
    }
    proof {
        assert(is_lower_bound(views, key@, lo as int));
        lemma_lower_bound_unique(views, key@, lo as int, lower_bound_of(views, key@));
    }
    lo
}

/// The position of `key` in an ascending list, if the list holds it.
pub(crate) fn find<V: View>(entries: &Vec<(Bytes, V)>, key: &[u8]) -> (r: Option<usize>)
    requires
        ascending_keys(entries_view(entries@)),
    ensures
        r is Some <==> has_key(entries_view(entries@), key@),
        r matches Some(p) ==> p < entries@.len() && p == index_of(entries_view(entries@), key@)
            && entries_view(entries@)[p as int].0 == key@,
{
    let p = lower_bound(entries, key);
    proof {
        lemma_lower_bound_decides(entries_view(entries@), key@, p as int);
    }
    if p < entries.len() {
        match compare_bytes(bytes_as_slice(&entries[p].0), key) {
            ByteOrder::Equal => Some(p),
            _ => None,
        }
    } else {
        None
    }
}

/// Stores `value` under `key` in an ascending list and returns the value
/// the key had before.
pub(crate) fn put<V: View>(entries: &mut Vec<(Bytes, V)>, key: Bytes, value: V) -> (r: Option<V>)
    requires
        ascending_keys(entries_view(old(entries)@)),
    ensures
        ascending_keys(entries_view(final(entries)@)),
        entries_view(final(entries)@) == put_entry(
            entries_view(old(entries)@),
            bytes_view(key),
            value@,
        ),
        match r {
            Some(v) => entry_of(entries_view(old(entries)@), bytes_view(key)) == Some(v@),
            None => entry_of(entries_view(old(entries)@), bytes_view(key)) is None,
        },
{
    let ghost before = entries_view(entries@);
    let p = lower_bound(entries, bytes_as_slice(&key));
    proof {
        lemma_lower_bound_decides(before, bytes_view(key), p as int);
        lemma_put_entry(before, bytes_view(key), value@);
    }
    let held = p < entries.len() && compare_bytes(
        bytes_as_slice(&entries[p].0),
        bytes_as_slice(&key),
    ) == ByteOrder::Equal;
    if held {
        let prev = entries.remove(p);
        entries.insert(p, (key, value));
        assert(entries_view(entries@) =~= before.update(p as int, (bytes_view(key), value@)));
        Some(prev.1)
    } else {
        entries.insert(p, (key, value));
        assert(entries_view(entries@) =~= before.insert(p as int, (bytes_view(key), value@)));
        None
    }
}

/// Removes `key` from an ascending list and returns the value it had.
pub(crate) fn take<V: View>(entries: &mut Vec<(Bytes, V)>, key: &[u8]) -> (r: Option<V>)
    requires
        ascending_keys(entries_view(old(entries)@)),
    ensures
        ascending_keys(entries_view(final(entries)@)),
        entries_view(final(entries)@) == drop_entry(entries_view(old(entries)@), key@),
        match r {
            Some(v) => entry_of(entries_view(old(entries)@), key@) == Some(v@),
            None => entry_of(entries_view(old(entries)@), key@) is None,
        },
{
    let ghost before = entries_view(entries@);
    proof {
        lemma_drop_entry(before, key@);
    }
    match find(entries, key) {
        Some(p) => {
            proof {
                lemma_lower_bound_exists(before, key@);
                lemma_lower_bound_decides(before, key@, lower_bound_of(before, key@));
            }
            let prev = entries.remove(p);
            assert(entries_view(entries@) =~= before.remove(p as int));
            Some(prev.1)
        },
        None => {
            proof {
                lemma_lower_bound_exists(before, key@);
                lemma_lower_bound_decides(before, key@, lower_bound_of(before, key@));
            }
            None
        },
    }
}

} // verus!
