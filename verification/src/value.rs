//! The value stored under a key: a payload or a tombstone.

use vstd::prelude::*;

verus! {

/// A write to one key: `Put` stores a payload, `Delete` is a tombstone.
#[derive(Clone, Debug, PartialEq, Eq)]
pub enum HummockValue<T> {
    Put(T),
    Delete,
}

impl<T: View> View for HummockValue<T> {
    type V = HummockValue<T::V>;

    open spec fn view(&self) -> HummockValue<T::V> {
        match self {
            HummockValue::Put(v) => HummockValue::Put(v@),
            HummockValue::Delete => HummockValue::Delete,
        }
    }
}

impl<T> HummockValue<T> {
    /// Whether the value is a tombstone.
    pub fn is_delete(&self) -> (r: bool)
        ensures
            r == (self is Delete),
    {
        match self {
            HummockValue::Put(_) => false,
            HummockValue::Delete => true,
        }
    }

    /// The payload, unless the value is a tombstone.
    pub fn into_put_value(self) -> (r: Option<T>)
        ensures
            r == match self {
                HummockValue::Put(v) => Some(v),
                HummockValue::Delete => None,
            },
    {
        match self {
            HummockValue::Put(v) => Some(v),
            HummockValue::Delete => None,
        }
    }
}

impl HummockValue<Vec<u8>> {
    /// The same value over a borrowed payload.
    pub fn as_slice(&self) -> (r: HummockValue<&[u8]>)
        ensures
            r@ == self@,
    {
        match self {
            HummockValue::Put(v) => HummockValue::Put(v.as_slice()),
            HummockValue::Delete => HummockValue::Delete,
        }
    }

    /// An owned copy of the value.
    pub fn duplicate(&self) -> (r: Self)
        ensures
            r@ == self@,
    {
        match self {
            HummockValue::Put(v) => HummockValue::Put(v.clone()),
            HummockValue::Delete => HummockValue::Delete,
        }
    }
}

} // verus!
