use std::sync::Arc;

use hummock_state::key::key_with_epoch;
use hummock_state::memtable::{
    is_sorted_batch, ImmutableMemtable, ImmutableMemtableIterator, MemtableItem, BACKWARD, FORWARD,
};
use hummock_state::value::HummockValue;

fn put(user_key: &[u8], epoch: u64, payload: &[u8]) -> MemtableItem {
    (key_with_epoch(user_key.to_vec(), epoch), HummockValue::Put(payload.to_vec()))
}

fn tombstone(user_key: &[u8], epoch: u64) -> MemtableItem {
    (key_with_epoch(user_key.to_vec(), epoch), HummockValue::Delete)
}

fn sample() -> Vec<MemtableItem> {
    vec![put(b"k1", 7, b"v1"), tombstone(b"k3", 7), put(b"k5", 7, b"v5"), put(b"k7", 7, b"v7")]
}

#[test]
fn sorted_batch_is_accepted() {
    assert!(is_sorted_batch(&sample(), 7));
    assert!(is_sorted_batch(&vec![put(b"only", 1, b"x")], 1));
}

#[test]
fn malformed_batches_are_told_apart() {
    assert!(!is_sorted_batch(&Vec::new(), 7));
    assert!(!is_sorted_batch(&sample(), 8));
    assert!(!is_sorted_batch(&vec![put(b"k2", 7, b"a"), put(b"k1", 7, b"b")], 7));
    assert!(!is_sorted_batch(&vec![put(b"k1", 7, b"a"), put(b"k1", 7, b"b")], 7));
    assert!(!is_sorted_batch(&vec![put(b"k1", 7, b"a"), put(b"k2", 6, b"b")], 7));
    assert!(!is_sorted_batch(&vec![(b"short".to_vec(), HummockValue::Delete)], 7));
}

#[test]
fn get_finds_each_key() {
    let m = ImmutableMemtable::new(sample(), 7);
    assert_eq!(m.get(b"k1"), Some(HummockValue::Put(b"v1".to_vec())));
    assert_eq!(m.get(b"k3"), Some(HummockValue::Delete));
    assert_eq!(m.get(b"k5"), Some(HummockValue::Put(b"v5".to_vec())));
    assert_eq!(m.get(b"k7"), Some(HummockValue::Put(b"v7".to_vec())));
}

#[test]
fn get_misses_absent_keys() {
    let m = ImmutableMemtable::new(sample(), 7);
    assert_eq!(m.get(b"k0"), None);
    assert_eq!(m.get(b"k2"), None);
    assert_eq!(m.get(b"k6"), None);
    assert_eq!(m.get(b"k8"), None);
    assert_eq!(m.get(b""), None);
    assert_eq!(m.get(b"k"), None);
}

#[test]
fn boundary_accessors() {
    let m = ImmutableMemtable::new(sample(), 7);
    assert_eq!(m.start_key(), key_with_epoch(b"k1".to_vec(), 7).as_slice());
    assert_eq!(m.end_key(), key_with_epoch(b"k7".to_vec(), 7).as_slice());
    assert_eq!(m.start_user_key(), b"k1");
    assert_eq!(m.end_user_key(), b"k7");
    assert_eq!(m.epoch(), 7);
    let single = ImmutableMemtable::new(vec![put(b"only", 3, b"x")], 3);
    assert_eq!(single.start_user_key(), b"only");
    assert_eq!(single.end_user_key(), b"only");
}

#[test]
fn into_inner_hands_out_the_items() {
    let m = ImmutableMemtable::new(sample(), 7);
    let shared = m.share();
    let inner = m.into_inner();
    assert_eq!(*inner, sample());
    assert_eq!(*shared.into_inner(), sample());
}

#[test]
fn forward_cursor_walks_up() {
    let m = ImmutableMemtable::new(sample(), 7);
    let mut cursor = m.iter();
    let mut seen = Vec::new();
    while cursor.is_valid() {
        seen.push((cursor.key().to_vec(), cursor.value().into_put_value().map(|v| v.to_vec())));
        assert_eq!(cursor.next(), Ok(()));
    }
    let expected: Vec<(Vec<u8>, Option<Vec<u8>>)> =
        sample().into_iter().map(|(k, v)| (k, v.into_put_value())).collect();
    assert_eq!(seen, expected);
}

#[test]
fn backward_cursor_walks_down() {
    let m = ImmutableMemtable::new(sample(), 7);
    let mut cursor = m.reverse_iter();
    let mut seen = Vec::new();
    while cursor.is_valid() {
        seen.push(cursor.key().to_vec());
        assert_eq!(cursor.next(), Ok(()));
    }
    let mut expected: Vec<Vec<u8>> = sample().into_iter().map(|(k, _)| k).collect();
    expected.reverse();
    assert_eq!(seen, expected);
}

#[test]
fn cursor_value_shows_tombstones() {
    let m = ImmutableMemtable::new(sample(), 7);
    let mut cursor = m.iter();
    assert_eq!(cursor.value(), HummockValue::Put(&b"v1"[..]));
    cursor.next().unwrap();
    assert_eq!(cursor.value(), HummockValue::Delete);
    assert!(cursor.value().is_delete());
}

#[test]
fn rewind_returns_to_the_start() {
    let m = ImmutableMemtable::new(sample(), 7);
    let mut cursor = m.iter();
    cursor.next().unwrap();
    cursor.next().unwrap();
    assert_eq!(cursor.key(), key_with_epoch(b"k5".to_vec(), 7).as_slice());
    assert_eq!(cursor.rewind(), Ok(()));
    assert_eq!(cursor.key(), key_with_epoch(b"k1".to_vec(), 7).as_slice());
}

#[test]
fn seek_positions_at_first_key_not_below() {
    let m = ImmutableMemtable::new(sample(), 7);
    let mut cursor = m.iter();
    cursor.seek(&key_with_epoch(b"k3".to_vec(), 7)).unwrap();
    assert_eq!(cursor.key(), key_with_epoch(b"k3".to_vec(), 7).as_slice());
    cursor.seek(&key_with_epoch(b"k4".to_vec(), 7)).unwrap();
    assert_eq!(cursor.key(), key_with_epoch(b"k5".to_vec(), 7).as_slice());
    cursor.seek(b"").unwrap();
    assert_eq!(cursor.key(), key_with_epoch(b"k1".to_vec(), 7).as_slice());
    cursor.seek(&key_with_epoch(b"k9".to_vec(), 7)).unwrap();
    assert!(!cursor.is_valid());
}

#[test]
fn seek_on_a_backward_cursor_counts_from_the_end() {
    let m = ImmutableMemtable::new(sample(), 7);
    let mut cursor = m.reverse_iter();
    cursor.seek(&key_with_epoch(b"k3".to_vec(), 7)).unwrap();
    assert!(cursor.is_valid());
    assert_eq!(cursor.key(), key_with_epoch(b"k5".to_vec(), 7).as_slice());
}

#[test]
fn cursor_over_shared_items() {
    let items = Arc::new(sample());
    let forward = ImmutableMemtableIterator::<FORWARD>::new(items.clone());
    let backward = ImmutableMemtableIterator::<BACKWARD>::new(items);
    assert_eq!(forward.current_item(), &sample()[0]);
    assert_eq!(backward.current_item(), &sample()[3]);
}

#[test]
fn cursor_over_nothing_is_invalid() {
    let cursor = ImmutableMemtableIterator::<FORWARD>::new(Arc::new(Vec::new()));
    assert!(!cursor.is_valid());
}

#[test]
fn value_helpers() {
    let v = HummockValue::Put(b"abc".to_vec());
    assert!(!v.is_delete());
    assert_eq!(v.as_slice(), HummockValue::Put(&b"abc"[..]));
    assert_eq!(v.duplicate(), v);
    assert_eq!(v.into_put_value(), Some(b"abc".to_vec()));
    let d: HummockValue<Vec<u8>> = HummockValue::Delete;
    assert!(d.is_delete());
    assert_eq!(d.duplicate(), HummockValue::Delete);
    assert_eq!(d.into_put_value(), None);
}
