//! The pending change of one key between two flushes.

use vstd::prelude::*;

verus! {

/// What the next flush has to write for a key: the folded effect of every
/// insert and delete made on the key since the last flush.
#[derive(Clone, Debug, PartialEq, Eq)]
pub enum FlushStatus<T> {
    /// The key is to be removed from the store.
    Delete,
    /// The key is to be written with this value.
    Insert(T),
    /// The key was deleted and then written again with this value.
    DeleteInsert(T),
}

/// One change made to a key.
pub enum Change<T> {
    Insert(T),
    Delete,
}

impl<T: View> View for FlushStatus<T> {
    type V = FlushStatus<T::V>;

    open spec fn view(&self) -> FlushStatus<T::V> {
        match self {
            FlushStatus::Delete => FlushStatus::Delete,
            FlushStatus::Insert(v) => FlushStatus::Insert(v@),
            FlushStatus::DeleteInsert(v) => FlushStatus::DeleteInsert(v@),
        }
    }
}

/// The status of a key after an insert of `v`, given its status before.
pub open spec fn after_insert<T>(prev: Option<FlushStatus<T>>, v: T) -> FlushStatus<T> {
    match prev {
        None => FlushStatus::Insert(v),
        Some(FlushStatus::Insert(_)) => FlushStatus::Insert(v),
        Some(FlushStatus::Delete) => FlushStatus::DeleteInsert(v),
        Some(FlushStatus::DeleteInsert(_)) => FlushStatus::DeleteInsert(v),
    }
}

/// The status of a key after a delete, given its status before.
pub open spec fn after_delete<T>(prev: Option<FlushStatus<T>>) -> FlushStatus<T> {
    FlushStatus::Delete
}

/// What a status writes to the store: the value, or nothing for a tombstone.
pub open spec fn written<T>(status: FlushStatus<T>) -> Option<T> {
    match status {
        FlushStatus::Delete => None,
        FlushStatus::Insert(v) => Some(v),
        FlushStatus::DeleteInsert(v) => Some(v),
    }
}

/// The status of a key after one change.
pub open spec fn after_change<T>(prev: Option<FlushStatus<T>>, change: Change<T>) -> FlushStatus<T> {
    match change {
        Change::Insert(v) => after_insert(prev, v),
        Change::Delete => after_delete(prev),
    }
}

/// The status of a key after a series of changes, oldest first.
pub open spec fn after_changes<T>(prev: Option<FlushStatus<T>>, changes: Seq<Change<T>>) -> Option<
    FlushStatus<T>,
>
    decreases changes.len(),
{
    if changes.len() == 0 {
        prev
    } else {
        Some(after_change(after_changes(prev, changes.drop_last()), changes.last()))
    }
}

/// Whatever a key's status was, after any series of changes the status
/// writes what the last change asks for: the value of a final insert, a
/// tombstone after a final delete.
pub proof fn lemma_net_outcome<T>(prev: Option<FlushStatus<T>>, changes: Seq<Change<T>>)
    requires
        changes.len() > 0,
    ensures
        after_changes(prev, changes) matches Some(status) && written(status) == match changes.last() {
            Change::Insert(v) => Some(v),
            Change::Delete => None,
        },
{
}

/// A key that was pending deletion, or was deleted at any point of the
/// series, is never again a plain insert: the tombstone is remembered.
pub proof fn lemma_delete_remembered<T>(prev: Option<FlushStatus<T>>, changes: Seq<Change<T>>)
    requires
        changes.len() > 0,
        (prev is Some && !(prev->0 is Insert)) || exists|i: int|
            0 <= i < changes.len() && #[trigger] changes[i] is Delete,
    ensures
        after_changes(prev, changes) matches Some(status) && !(status is Insert),
    decreases changes.len(),
{
    let head = changes.drop_last();
    let last = changes.last();
    assert(after_changes(prev, changes) == Some(after_change(after_changes(prev, head), last)));
    if last is Insert {
        let witnessed = exists|i: int| 0 <= i < changes.len() && #[trigger] changes[i] is Delete;
        if head.len() == 0 {
            if witnessed {
                let i = choose|i: int| 0 <= i < changes.len() && #[trigger] changes[i] is Delete;
                assert(changes[i] == last);
            }
            assert(after_changes(prev, head) == prev);
        } else {
            if witnessed {
                let i = choose|i: int| 0 <= i < changes.len() && #[trigger] changes[i] is Delete;
                if i == changes.len() - 1 {
                    assert(changes[i] == last);
                }
                assert(head[i] is Delete);
            }
            lemma_delete_remembered(prev, head);
        }
    }
}

impl<T> FlushStatus<T> {
    /// Folds an insert of `val` into the pending status `prev` of a key.
    pub fn do_insert(prev: Option<Self>, val: T) -> (r: Self)
        ensures
            r == after_insert(prev, val),
    {
        match prev {
            None => FlushStatus::Insert(val),
            Some(FlushStatus::Insert(_)) => FlushStatus::Insert(val),
            Some(FlushStatus::Delete) => FlushStatus::DeleteInsert(val),
            Some(FlushStatus::DeleteInsert(_)) => FlushStatus::DeleteInsert(val),
        }
    }

    /// Folds a delete into the pending status `prev` of a key.
    pub fn do_delete(prev: Option<Self>) -> (r: Self)
        ensures
            r == after_delete(prev),
    {
        FlushStatus::Delete
    }

    /// What the status writes: the value, or `None` for a tombstone.
    pub fn into_option(self) -> (r: Option<T>)
        ensures
            r == written(self),
    {
        match self {
            FlushStatus::Delete => None,
            FlushStatus::Insert(v) => Some(v),
            FlushStatus::DeleteInsert(v) => Some(v),
        }
    }
}

} // verus!
