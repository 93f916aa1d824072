//! Immutable memtables: sorted batches of writes that share one epoch, and
//! the cursors that walk them.

use std::sync::Arc;
use vstd::prelude::*;
use crate::error::HummockResult;
use crate::key::{
    compare_bytes, epoch_of, lemma_lex_asymmetric, lemma_lex_le_lt, lemma_lex_transitive, lex_lt,
    user_key_of, ByteOrder, EPOCH_LEN,
};
use crate::ordered::{ascending_keys, is_lower_bound};
use crate::value::HummockValue;

verus! {

/// One entry of a memtable: a full key and what was written under it.
pub type MemtableItem = (Vec<u8>, HummockValue<Vec<u8>>);

/// The mathematical value of a memtable entry.
pub type ItemView = (Seq<u8>, HummockValue<Seq<u8>>);

/// Direction of a cursor that starts at the smallest key.
pub const FORWARD: usize = 0;

/// Direction of a cursor that starts at the largest key.
pub const BACKWARD: usize = 1;

/// The entries of a batch as mathematical values.
pub open spec fn items_view(items: Seq<MemtableItem>) -> Seq<ItemView> {
    Seq::new(items.len(), |i: int| (items[i].0@, items[i].1@))
}

/// The entries of a batch may form a memtable at `epoch`: there is at least
/// one, every key is a full key of that epoch, and the entries ascend
/// strictly both by full key and by user key.
pub open spec fn sorted_batch(items: Seq<ItemView>, epoch: u64) -> bool {
    &&& items.len() > 0
    &&& forall|i: int|
        0 <= i < items.len() ==> (#[trigger] items[i]).0.len() >= EPOCH_LEN && epoch_of(
            items[i].0,
        ) == epoch
    &&& ascending_keys(items)
    &&& forall|i: int, j: int|
        0 <= i < j < items.len() ==> lex_lt(
            user_key_of((#[trigger] items[i]).0),
            user_key_of((#[trigger] items[j]).0),
        )
}

/// Whether a batch may form a memtable at `epoch`.
pub fn is_sorted_batch(items: &Vec<MemtableItem>, epoch: u64) -> (r: bool)
    ensures
        r == sorted_batch(items_view(items@), epoch),
{
    let ghost views = items_view(items@);
    if items.len() == 0 {
        return false;
    }
    let mut i: usize = 0;
    while i < items.len()
        invariant
            i <= items.len(),
            views == items_view(items@),
            forall|j: int|
                0 <= j < i ==> (#[trigger] views[j]).0.len() >= EPOCH_LEN && epoch_of(views[j].0)
                    == epoch,
            forall|a: int, b: int|
                0 <= a < b < i ==> lex_lt((#[trigger] views[a]).0, (#[trigger] views[b]).0),
            forall|a: int, b: int|
                0 <= a < b < i ==> lex_lt(
                    user_key_of((#[trigger] views[a]).0),
                    user_key_of((#[trigger] views[b]).0),
                ),
        decreases items.len() - i,
    {
        let key = items[i].0.as_slice();
        assert(key@ == views[i as int].0);
        if key.len() < EPOCH_LEN || crate::key::get_epoch(key) != epoch {
            return false;
        }
        if i > 0 {
            let prev = items[i - 1].0.as_slice();
            assert(prev@ == views[i - 1].0);
            let full = compare_bytes(prev, key);
            let user = compare_bytes(crate::key::user_key(prev), crate::key::user_key(key));
            if full != ByteOrder::Less || user != ByteOrder::Less {
                return false;
            }
            assert forall|a: int, b: int| 0 <= a < b < i + 1 implies lex_lt(
                (#[trigger] views[a]).0,
                (#[trigger] views[b]).0,
            ) by {
                if b == i && a < i - 1 {
                    lemma_lex_transitive(views[a].0, views[i - 1].0, views[i as int].0);
                }
            }
            assert forall|a: int, b: int| 0 <= a < b < i + 1 implies lex_lt(
                user_key_of((#[trigger] views[a]).0),
                user_key_of((#[trigger] views[b]).0),
            ) by {
                if b == i && a < i - 1 {
                    lemma_lex_transitive(
                        user_key_of(views[a].0),
                        user_key_of(views[i - 1].0),
                        user_key_of(views[i as int].0),
                    );
                }
            }
        }
        i += 1;
    }
    true
}

/// Every user key of a sorted batch lies between the first and the last.
pub proof fn lemma_user_keys_bounded(items: Seq<ItemView>, epoch: u64, i: int)
    requires
        sorted_batch(items, epoch),
        0 <= i < items.len(),
    ensures
        crate::key::lex_le(user_key_of(items.first().0), user_key_of(items[i].0)),
        crate::key::lex_le(user_key_of(items[i].0), user_key_of(items.last().0)),
{
    if 0 < i {
        assert(lex_lt(user_key_of(items[0].0), user_key_of(items[i].0)));
    }
    if i < items.len() - 1 {
        assert(lex_lt(user_key_of(items[i].0), user_key_of(items[items.len() - 1].0)));
    }
}

/// Some entry of `items` is stored under `user_key`.
pub open spec fn holds_user_key(items: Seq<ItemView>, user_key: Seq<u8>) -> bool {
    exists|i: int| 0 <= i < items.len() && user_key_of((#[trigger] items[i]).0) == user_key
}

/// What `items` store under `user_key`, if anything.
pub open spec fn lookup(items: Seq<ItemView>, user_key: Seq<u8>) -> Option<HummockValue<Seq<u8>>> {
    if holds_user_key(items, user_key) {
        let i = choose|i: int|
            0 <= i < items.len() && user_key_of((#[trigger] items[i]).0) == user_key;
        Some(items[i].1)
    } else {
        None
    }
}

/// The mathematical value of a memtable.
pub struct MemtableView {
    pub items: Seq<ItemView>,
    pub epoch: u64,
}

/// A sorted batch of writes made at one epoch. It never changes once built;
/// readers and the uploader share its entries.
#[derive(Clone, Debug)]
pub struct ImmutableMemtable {
    inner: Arc<Vec<MemtableItem>>,
    epoch: u64,
}

impl View for ImmutableMemtable {
    type V = MemtableView;

    closed spec fn view(&self) -> MemtableView {
        MemtableView { items: items_view(self.inner@), epoch: self.epoch }
    }
}

impl ImmutableMemtable {
    /// The memtable holds a sorted batch of its epoch.
    pub open spec fn wf(&self) -> bool {
        sorted_batch(self@.items, self@.epoch)
    }

    /// The smallest full key of the memtable.
    pub open spec fn first_key(&self) -> Seq<u8> {
        self@.items.first().0
    }

    /// The smallest user key of the memtable.
    pub open spec fn first_user_key(&self) -> Seq<u8> {
        user_key_of(self@.items.first().0)
    }

    /// The largest user key of the memtable.
    pub open spec fn last_user_key(&self) -> Seq<u8> {
        user_key_of(self@.items.last().0)
    }

    /// Builds a memtable from a sorted batch.
    pub fn new(sorted_items: Vec<MemtableItem>, epoch: u64) -> (r: Self)
        requires
            sorted_batch(items_view(sorted_items@), epoch),
        ensures
            r.wf(),
            r@.items == items_view(sorted_items@),
            r@.epoch == epoch,
    {
        Self { inner: Arc::new(sorted_items), epoch }
    }

    /// The value written under `user_key`, if the memtable holds that key.
    pub fn get(&self, user_key: &[u8]) -> (r: Option<HummockValue<Vec<u8>>>)
        requires
            self.wf(),
        ensures
            match r {
                Some(v) => lookup(self@.items, user_key@) == Some(v@),
                None => lookup(self@.items, user_key@) is None,
            },
    {
        let items: &Vec<MemtableItem> = &self.inner;
        let mut lo: usize = 0;
        let mut hi: usize = items.len();
        while lo < hi
            invariant
                0 <= lo <= hi <= items.len(),
                items@ == self.inner@,
                self.wf(),
                forall|i: int|
                    0 <= i < lo ==> lex_lt(user_key_of((#[trigger] self@.items[i]).0), user_key@),
                forall|i: int|
                    hi <= i < items.len() ==> lex_lt(
                        user_key@,
                        user_key_of((#[trigger] self@.items[i]).0),
                    ),
            decreases hi - lo,
        {
            let mid: usize = lo + (hi - lo) / 2;
            let ghost probe = user_key_of(self@.items[mid as int].0);
            assert(self@.items[mid as int].0 == items@[mid as int].0@);
            match compare_bytes(crate::key::user_key(items[mid].0.as_slice()), user_key) {
                ByteOrder::Less => {
                    assert forall|i: int| 0 <= i < mid + 1 implies lex_lt(
                        user_key_of((#[trigger] self@.items[i]).0),
                        user_key@,
                    ) by {
                        if i < mid {
                            lemma_lex_transitive(user_key_of(self@.items[i].0), probe, user_key@);
                        }
                    }
                    lo = mid + 1;
                },
                ByteOrder::Equal => {
                    let v = items[mid].1.duplicate();
                    proof {
                        lemma_lookup_at(self@.items, self@.epoch, mid as int);
                    }
                    return Some(v);
                },
                ByteOrder::Greater => {
                    assert forall|i: int| mid <= i < items.len() implies lex_lt(
                        user_key@,
                        user_key_of((#[trigger] self@.items[i]).0),
                    ) by {
                        if mid < i {
                            lemma_lex_transitive(user_key@, probe, user_key_of(self@.items[i].0));
                        }
                    }
                    hi = mid;
                },
            }
        }
        proof {
            assert forall|i: int| 0 <= i < self@.items.len() implies user_key_of(
                (#[trigger] self@.items[i]).0,
            ) != user_key@ by {
                lemma_lex_asymmetric(user_key@, user_key@);
            }
        }
        None
    }

    /// A cursor over the entries from the smallest key up.
    pub fn iter(&self) -> (r: ImmutableMemtableIterator<FORWARD>)
        ensures
            r.items() == self@.items,
            r.position() == 0,
    {
        ImmutableMemtableIterator::<FORWARD>::new(share_items(&self.inner))
    }

    /// A cursor over the entries from the largest key down.
    pub fn reverse_iter(&self) -> (r: ImmutableMemtableIterator<BACKWARD>)
        ensures
            r.items() == self@.items,
            r.position() == 0,
    {
        ImmutableMemtableIterator::<BACKWARD>::new(share_items(&self.inner))
    }

    /// The smallest full key.
    pub fn start_key(&self) -> (r: &[u8])
        requires
            self.wf(),
        ensures
            r@ == self@.items.first().0,
    {
        let items: &Vec<MemtableItem> = &self.inner;
        items[0].0.as_slice()
    }

    /// The largest full key.
    pub fn end_key(&self) -> (r: &[u8])
        requires
            self.wf(),
        ensures
            r@ == self@.items.last().0,
    {
        let items: &Vec<MemtableItem> = &self.inner;
        items[items.len() - 1].0.as_slice()
    }

    /// The smallest user key.
    pub fn start_user_key(&self) -> (r: &[u8])
        requires
            self.wf(),
        ensures
            r@ == user_key_of(self@.items.first().0),
    {
        let items: &Vec<MemtableItem> = &self.inner;
        assert(self@.items[0].0 == items@[0].0@);
        crate::key::user_key(items[0].0.as_slice())
    }

    /// The largest user key.
    pub fn end_user_key(&self) -> (r: &[u8])
        requires
            self.wf(),
        ensures
            r@ == user_key_of(self@.items.last().0),
    {
        let items: &Vec<MemtableItem> = &self.inner;
        assert(self@.items[items.len() - 1].0 == items@[items.len() - 1].0@);
        crate::key::user_key(items[items.len() - 1].0.as_slice())
    }

    /// The epoch at which the batch was written.
    pub fn epoch(&self) -> (r: u64)
        ensures
            r == self@.epoch,
    {
        self.epoch
    }

    /// The shared entries.
    pub fn into_inner(self) -> (r: Arc<Vec<MemtableItem>>)
        ensures
            items_view(r@) == self@.items,
    {
        self.inner
    }

    /// Another handle to the same memtable.
    pub fn share(&self) -> (r: Self)
        ensures
            r == *self,
    {
        Self { inner: share_items(&self.inner), epoch: self.epoch }
    }
}

/// `Arc::clone`: the new handle points at the same entries.
#[verifier::external_body]
fn share_items(items: &Arc<Vec<MemtableItem>>) -> (r: Arc<Vec<MemtableItem>>)
    ensures
        r == *items,
{
    Arc::clone(items)
}

/// A cursor over the entries of a memtable. A `FORWARD` cursor at position
/// `p` stands on entry `p`; a `BACKWARD` cursor stands on entry `len - 1 - p`.
pub struct ImmutableMemtableIterator<const DIRECTION: usize> {
    inner: Arc<Vec<MemtableItem>>,
    current_idx: usize,
}

impl<const DIRECTION: usize> ImmutableMemtableIterator<DIRECTION> {
    /// The entries the cursor walks.
    pub closed spec fn items(&self) -> Seq<ItemView> {
        items_view(self.inner@)
    }

    /// How many steps the cursor has taken from its start.
    pub closed spec fn position(&self) -> nat {
        self.current_idx as nat
    }

    /// The cursor stands on an entry.
    pub open spec fn valid(&self) -> bool {
        self.position() < self.items().len()
    }

    /// The index of the entry the cursor stands on.
    pub open spec fn slot(&self) -> int {
        if DIRECTION == FORWARD {
            self.position() as int
        } else {
            self.items().len() - 1 - self.position()
        }
    }

    /// A cursor at the start of `inner`.
    pub fn new(inner: Arc<Vec<MemtableItem>>) -> (r: Self)
        ensures
            r.items() == items_view(inner@),
            r.position() == 0,
    {
        Self { inner, current_idx: 0 }
    }

    /// The entry under the cursor.
    pub fn current_item(&self) -> (r: &MemtableItem)
        requires
            self.valid(),
            DIRECTION == FORWARD || DIRECTION == BACKWARD,
        ensures
            (r.0@, r.1@) == self.items()[self.slot()],
    {
        let items: &Vec<MemtableItem> = &self.inner;
        let idx: usize = if DIRECTION == FORWARD {
            self.current_idx
        } else {
            items.len() - self.current_idx - 1
        };
        &items[idx]
    }

    /// Moves the cursor one entry on.
    pub fn next(&mut self) -> (r: HummockResult<()>)
        requires
            old(self).valid(),
        ensures
            r is Ok,
            final(self).items() == old(self).items(),
            final(self).position() == old(self).position() + 1,
    {
        assert(self.current_idx < self.inner.len());
        self.current_idx += 1;
        Ok(())
    }

    /// The full key under the cursor.
    pub fn key(&self) -> (r: &[u8])
        requires
            self.valid(),
            DIRECTION == FORWARD || DIRECTION == BACKWARD,
        ensures
            r@ == self.items()[self.slot()].0,
    {
        self.current_item().0.as_slice()
    }

    /// The value under the cursor.
    pub fn value(&self) -> (r: HummockValue<&[u8]>)
        requires
            self.valid(),
            DIRECTION == FORWARD || DIRECTION == BACKWARD,
        ensures
            r@ == self.items()[self.slot()].1,
    {
        self.current_item().1.as_slice()
    }

    /// Whether the cursor stands on an entry.
    pub fn is_valid(&self) -> (r: bool)
        ensures
            r == self.valid(),
    {
        let items: &Vec<MemtableItem> = &self.inner;
        self.current_idx < items.len()
    }

    /// Moves the cursor back to its start.
    pub fn rewind(&mut self) -> (r: HummockResult<()>)
        ensures
            r is Ok,
            final(self).items() == old(self).items(),
            final(self).position() == 0,
    {
        self.current_idx = 0;
        Ok(())
    }

    /// Sets the position to the index of the first entry whose full key is
    /// not below `key`, whatever the direction of the cursor.
    pub fn seek(&mut self, key: &[u8]) -> (r: HummockResult<()>)
        ensures
            r is Ok,
            final(self).items() == old(self).items(),
            final(self).position() <= final(self).items().len(),
            ascending_keys(old(self).items()) ==> is_lower_bound(
                old(self).items(),
                key@,
                final(self).position() as int,
            ),
    {
        let items: &Vec<MemtableItem> = &self.inner;
        let ghost views = items_view(items@);
        let mut lo: usize = 0;
        let mut hi: usize = items.len();
        while lo < hi
            invariant
                0 <= lo <= hi <= items.len(),
                views == items_view(items@),
                ascending_keys(views) ==> forall|j: int|
                    0 <= j < lo ==> lex_lt((#[trigger] views[j]).0, key@),
                ascending_keys(views) ==> forall|j: int|
                    hi <= j < items.len() ==> !lex_lt((#[trigger] views[j]).0, key@),
            decreases hi - lo,
        {
            let mid: usize = lo + (hi - lo) / 2;
            let ghost probe = views[mid as int].0;
            assert(probe == items@[mid as int].0@);
            match compare_bytes(items[mid].0.as_slice(), key) {
                ByteOrder::Less => {
                    assert(ascending_keys(views) ==> forall|j: int|
                        0 <= j < mid + 1 ==> lex_lt((#[trigger] views[j]).0, key@)) by {
                        if ascending_keys(views) {
                            assert forall|j: int| 0 <= j < mid + 1 implies lex_lt(
                                (#[trigger] views[j]).0,
                                key@,
                            ) by {
                                if j < mid {
                                    lemma_lex_transitive(views[j].0, probe, key@);
                                }
                            }
                        }
                    }
                    lo = mid + 1;
                },
                _ => {
                    assert(ascending_keys(views) ==> forall|j: int|
                        mid <= j < items.len() ==> !lex_lt((#[trigger] views[j]).0, key@)) by {
                        if ascending_keys(views) {
                            assert forall|j: int| mid <= j < items.len() implies !lex_lt(
                                (#[trigger] views[j]).0,
                                key@,
                            ) by {
                                lemma_lex_asymmetric(probe, key@);
                                if mid < j && lex_lt(views[j].0, key@) {
                                    lemma_lex_le_lt(probe, views[j].0, key@);
                                }
                            }
                        }
                    }
                    hi = mid;
                },
            }
        }
        self.current_idx = lo;
        Ok(())
    }
}

/// In a sorted batch the entry at `i` is the one found under its user key.
pub proof fn lemma_lookup_at(items: Seq<ItemView>, epoch: u64, i: int)
    requires
        sorted_batch(items, epoch),
        0 <= i < items.len(),
    ensures
        lookup(items, user_key_of(items[i].0)) == Some(items[i].1),
{
    let uk = user_key_of(items[i].0);
    assert(holds_user_key(items, uk));
    let j = choose|j: int| 0 <= j < items.len() && user_key_of((#[trigger] items[j]).0) == uk;
    lemma_lex_asymmetric(uk, uk);
    if j < i {
        assert(lex_lt(user_key_of(items[j].0), user_key_of(items[i].0)));
    } else if i < j {
        assert(lex_lt(user_key_of(items[i].0), user_key_of(items[j].0)));
    }
}

} // verus!
