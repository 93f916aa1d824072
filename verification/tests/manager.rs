use hummock_state::error::HummockError;
use hummock_state::key::key_with_epoch;
use hummock_state::manager::MemtableManager;
use hummock_state::memtable::MemtableItem;
use hummock_state::range::{range_overlap, EpochRange, RangeEdge, UserKeyRange};
use hummock_state::value::HummockValue;

fn put(user_key: &[u8], epoch: u64, payload: &[u8]) -> MemtableItem {
    (key_with_epoch(user_key.to_vec(), epoch), HummockValue::Put(payload.to_vec()))
}

fn tombstone(user_key: &[u8], epoch: u64) -> MemtableItem {
    (key_with_epoch(user_key.to_vec(), epoch), HummockValue::Delete)
}

fn payload(v: &[u8]) -> Option<HummockValue<Vec<u8>>> {
    Some(HummockValue::Put(v.to_vec()))
}

fn key_range(start: RangeEdge<&[u8]>, end: RangeEdge<&[u8]>) -> UserKeyRange {
    fn own(edge: RangeEdge<&[u8]>) -> RangeEdge<Vec<u8>> {
        match edge {
            RangeEdge::Included(k) => RangeEdge::Included(k.to_vec()),
            RangeEdge::Excluded(k) => RangeEdge::Excluded(k.to_vec()),
            RangeEdge::Unbounded => RangeEdge::Unbounded,
        }
    }
    UserKeyRange { start: own(start), end: own(end) }
}

#[test]
fn cross_epoch_get() {
    let mut manager = MemtableManager::new();
    manager.write_batch(vec![put(b"k1", 10, b"v1a"), put(b"k2", 10, b"v2")], 10).unwrap();
    manager.write_batch(vec![tombstone(b"k1", 20)], 20).unwrap();
    assert_eq!(manager.get(b"k1", &EpochRange::up_to(20)), Some(HummockValue::Delete));
    assert_eq!(manager.get(b"k1", &EpochRange::up_to(15)), payload(b"v1a"));
    assert_eq!(manager.get(b"k2", &EpochRange::up_to(20)), payload(b"v2"));
    assert_eq!(manager.get(b"k1", &EpochRange::up_to(9)), None);
    assert_eq!(manager.get(b"k3", &EpochRange::up_to(20)), None);
}

#[test]
fn write_is_visible_at_its_epoch_and_not_before() {
    let mut manager = MemtableManager::new();
    manager.write_batch(vec![put(b"a", 5, b"old")], 5).unwrap();
    let before_excl = manager.get(b"a", &EpochRange::below(8));
    let before_other = manager.get(b"b", &EpochRange::up_to(8));
    manager.write_batch(vec![put(b"a", 8, b"new"), tombstone(b"c", 8)], 8).unwrap();
    assert_eq!(manager.get(b"a", &EpochRange::up_to(8)), payload(b"new"));
    assert_eq!(manager.get(b"c", &EpochRange::up_to(8)), Some(HummockValue::Delete));
    assert_eq!(manager.get(b"a", &EpochRange::below(8)), before_excl);
    assert_eq!(manager.get(b"a", &EpochRange::below(8)), payload(b"old"));
    assert_eq!(manager.get(b"b", &EpochRange::up_to(8)), before_other);
}

#[test]
fn newer_epoch_wins_whatever_the_write_order() {
    let mut manager = MemtableManager::new();
    manager.write_batch(vec![put(b"k", 30, b"newest")], 30).unwrap();
    manager.write_batch(vec![put(b"k", 10, b"oldest")], 10).unwrap();
    manager.write_batch(vec![put(b"k", 20, b"middle")], 20).unwrap();
    assert_eq!(manager.get(b"k", &EpochRange::up_to(30)), payload(b"newest"));
    assert_eq!(manager.get(b"k", &EpochRange::up_to(29)), payload(b"middle"));
    assert_eq!(manager.get(b"k", &EpochRange::up_to(19)), payload(b"oldest"));
    assert_eq!(manager.get(b"k", &EpochRange::up_to(9)), None);
    let all = EpochRange::new(RangeEdge::Unbounded, RangeEdge::Unbounded);
    assert_eq!(manager.get(b"k", &all), payload(b"newest"));
}

#[test]
fn epoch_range_bounds_are_honoured() {
    let mut manager = MemtableManager::new();
    manager.write_batch(vec![put(b"k", 10, b"ten")], 10).unwrap();
    manager.write_batch(vec![put(b"k", 20, b"twenty")], 20).unwrap();
    let only_ten = EpochRange::new(RangeEdge::Included(10), RangeEdge::Excluded(20));
    assert_eq!(manager.get(b"k", &only_ten), payload(b"ten"));
    let after_ten = EpochRange::new(RangeEdge::Excluded(10), RangeEdge::Unbounded);
    assert_eq!(manager.get(b"k", &after_ten), payload(b"twenty"));
    let between = EpochRange::new(RangeEdge::Excluded(10), RangeEdge::Excluded(20));
    assert_eq!(manager.get(b"k", &between), None);
    let inverted = EpochRange::new(RangeEdge::Included(20), RangeEdge::Included(10));
    assert_eq!(manager.get(b"k", &inverted), None);
    assert!(only_ten.contains(10));
    assert!(!only_ten.contains(20));
    assert!(!after_ten.contains(10));
    assert!(after_ten.contains(u64::MAX));
}

#[test]
fn several_memtables_in_one_epoch() {
    let mut manager = MemtableManager::new();
    manager.write_batch(vec![put(b"m1", 5, b"1"), put(b"m3", 5, b"3")], 5).unwrap();
    manager.write_batch(vec![put(b"a1", 5, b"a"), put(b"a9", 5, b"z")], 5).unwrap();
    manager.write_batch(vec![put(b"x1", 5, b"x")], 5).unwrap();
    let range = EpochRange::up_to(5);
    assert_eq!(manager.get(b"a1", &range), payload(b"a"));
    assert_eq!(manager.get(b"a9", &range), payload(b"z"));
    assert_eq!(manager.get(b"m1", &range), payload(b"1"));
    assert_eq!(manager.get(b"m3", &range), payload(b"3"));
    assert_eq!(manager.get(b"x1", &range), payload(b"x"));
    assert_eq!(manager.get(b"m2", &range), None);
    assert_eq!(manager.get(b"b", &range), None);
    assert_eq!(manager.get(b"z", &range), None);
    assert_eq!(manager.get(b"", &range), None);
}

#[test]
fn key_inside_a_newer_range_but_absent_falls_through() {
    let mut manager = MemtableManager::new();
    manager.write_batch(vec![put(b"k2", 1, b"old")], 1).unwrap();
    manager.write_batch(vec![put(b"k1", 2, b"a"), put(b"k3", 2, b"c")], 2).unwrap();
    assert_eq!(manager.get(b"k2", &EpochRange::up_to(2)), payload(b"old"));
}

#[test]
fn overlapping_batch_is_rejected() {
    let mut manager = MemtableManager::new();
    manager.write_batch(vec![put(b"k3", 5, b"3"), put(b"k6", 5, b"6")], 5).unwrap();
    let inside = manager.write_batch(vec![put(b"k4", 5, b"4")], 5);
    assert!(matches!(inside, Err(HummockError::OverlappingBatch)));
    let touching = manager.write_batch(vec![put(b"k1", 5, b"1"), put(b"k3", 5, b"x")], 5);
    assert!(matches!(touching, Err(HummockError::OverlappingBatch)));
    let around = manager.write_batch(vec![put(b"k1", 5, b"1"), put(b"k9", 5, b"9")], 5);
    assert!(matches!(around, Err(HummockError::OverlappingBatch)));
    assert_eq!(manager.get(b"k4", &EpochRange::up_to(5)), None);
    assert_eq!(manager.get(b"k3", &EpochRange::up_to(5)), payload(b"3"));
    assert!(manager.write_batch(vec![put(b"k4", 6, b"4")], 6).is_ok());
    assert!(manager.write_batch(vec![put(b"k1", 5, b"1"), put(b"k2", 5, b"2")], 5).is_ok());
    assert!(manager.write_batch(vec![put(b"k7", 5, b"7")], 5).is_ok());
}

#[test]
fn invalid_batch_is_rejected() {
    let mut manager = MemtableManager::new();
    assert!(matches!(manager.write_batch(Vec::new(), 5), Err(HummockError::InvalidBatch)));
    let unsorted = vec![put(b"k2", 5, b"2"), put(b"k1", 5, b"1")];
    assert!(matches!(manager.write_batch(unsorted, 5), Err(HummockError::InvalidBatch)));
    let wrong_epoch = vec![put(b"k1", 4, b"1")];
    assert!(matches!(manager.write_batch(wrong_epoch, 5), Err(HummockError::InvalidBatch)));
    assert_eq!(manager.get(b"k1", &EpochRange::up_to(5)), None);
}

#[test]
fn write_batch_returns_the_memtable() {
    let mut manager = MemtableManager::new();
    let batch = vec![put(b"k1", 5, b"1"), put(b"k2", 5, b"2")];
    let m = manager.write_batch(batch.clone(), 5).unwrap();
    assert_eq!(m.epoch(), 5);
    assert_eq!(*m.into_inner(), batch);
}

#[test]
fn sync_then_purge() {
    let mut manager = MemtableManager::new();
    manager.write_batch(vec![put(b"a", 5, b"1")], 5).unwrap();
    manager.write_batch(vec![put(b"m", 5, b"2")], 5).unwrap();
    manager.write_batch(vec![put(b"x", 5, b"3")], 5).unwrap();
    manager.delete_before(5);
    assert_eq!(manager.get(b"a", &EpochRange::up_to(5)), None);
    assert_eq!(manager.get(b"m", &EpochRange::up_to(5)), None);
    assert_eq!(manager.get(b"x", &EpochRange::up_to(5)), None);
}

#[test]
fn purge_keeps_newer_epochs() {
    let mut manager = MemtableManager::new();
    manager.write_batch(vec![put(b"k", 4, b"four")], 4).unwrap();
    manager.write_batch(vec![put(b"k", 5, b"five")], 5).unwrap();
    manager.write_batch(vec![put(b"k", 6, b"six")], 6).unwrap();
    manager.delete_before(5);
    assert_eq!(manager.get(b"k", &EpochRange::up_to(5)), None);
    assert_eq!(manager.get(b"k", &EpochRange::up_to(6)), payload(b"six"));
    manager.delete_before(3);
    assert_eq!(manager.get(b"k", &EpochRange::up_to(6)), payload(b"six"));
    manager.delete_before(u64::MAX);
    assert_eq!(manager.get(b"k", &EpochRange::up_to(u64::MAX)), None);
}

#[test]
fn iterators_cover_overlap() {
    let mut manager = MemtableManager::new();
    manager.write_batch(vec![put(b"b", 1, b"b1"), put(b"d", 1, b"d1")], 1).unwrap();
    manager.write_batch(vec![put(b"c", 2, b"c2"), put(b"d", 2, b"d2")], 2).unwrap();
    let range = key_range(RangeEdge::Included(b"a"), RangeEdge::Excluded(b"z"));
    let cursors = manager.iters(&range, &EpochRange::up_to(2));
    assert_eq!(cursors.len(), 2);
    assert_eq!(cursors[0].key(), key_with_epoch(b"b".to_vec(), 1).as_slice());
    assert_eq!(cursors[1].key(), key_with_epoch(b"c".to_vec(), 2).as_slice());
    let mut merged: Vec<(Vec<u8>, Vec<u8>)> = Vec::new();
    for mut cursor in cursors {
        while cursor.is_valid() {
            merged.push((cursor.key().to_vec(), cursor.value().into_put_value().unwrap().to_vec()));
            cursor.next().unwrap();
        }
    }
    merged.sort();
    let keys: Vec<Vec<u8>> = merged.iter().map(|(k, _)| k.clone()).collect();
    assert_eq!(
        keys,
        vec![
            key_with_epoch(b"b".to_vec(), 1),
            key_with_epoch(b"c".to_vec(), 2),
            key_with_epoch(b"d".to_vec(), 2),
            key_with_epoch(b"d".to_vec(), 1),
        ]
    );
    assert_eq!(merged[2].1, b"d2".to_vec());
}

#[test]
fn iters_filter_by_key_and_epoch() {
    let mut manager = MemtableManager::new();
    manager.write_batch(vec![put(b"a", 1, b"1"), put(b"c", 1, b"1")], 1).unwrap();
    manager.write_batch(vec![put(b"e", 1, b"1"), put(b"g", 1, b"1")], 1).unwrap();
    manager.write_batch(vec![put(b"b", 2, b"2"), put(b"f", 2, b"2")], 2).unwrap();
    manager.write_batch(vec![put(b"a", 3, b"3")], 3).unwrap();
    let all_keys = key_range(RangeEdge::Unbounded, RangeEdge::Unbounded);
    assert_eq!(manager.iters(&all_keys, &EpochRange::up_to(3)).len(), 4);
    assert_eq!(manager.iters(&all_keys, &EpochRange::up_to(2)).len(), 3);
    assert_eq!(manager.iters(&all_keys, &EpochRange::below(1)).len(), 0);
    let low = key_range(RangeEdge::Unbounded, RangeEdge::Excluded(b"e"));
    let picked = manager.iters(&low, &EpochRange::up_to(3));
    assert_eq!(picked.len(), 3);
    assert_eq!(picked[0].key(), key_with_epoch(b"a".to_vec(), 1).as_slice());
    assert_eq!(picked[1].key(), key_with_epoch(b"b".to_vec(), 2).as_slice());
    assert_eq!(picked[2].key(), key_with_epoch(b"a".to_vec(), 3).as_slice());
    let high = key_range(RangeEdge::Excluded(b"c"), RangeEdge::Unbounded);
    let picked = manager.iters(&high, &EpochRange::up_to(1));
    assert_eq!(picked.len(), 1);
    assert_eq!(picked[0].key(), key_with_epoch(b"e".to_vec(), 1).as_slice());
    let point = key_range(RangeEdge::Included(b"d"), RangeEdge::Included(b"d"));
    assert_eq!(manager.iters(&point, &EpochRange::up_to(1)).len(), 0);
    assert_eq!(manager.iters(&point, &EpochRange::up_to(2)).len(), 1);
}

#[test]
fn reverse_iters_start_at_the_largest_key() {
    let mut manager = MemtableManager::new();
    manager.write_batch(vec![put(b"a", 1, b"1"), put(b"c", 1, b"1")], 1).unwrap();
    manager.write_batch(vec![put(b"e", 1, b"1"), put(b"g", 1, b"1")], 1).unwrap();
    let range = key_range(RangeEdge::Included(b"f"), RangeEdge::Excluded(b"c"));
    let cursors = manager.reverse_iters(&range, &EpochRange::up_to(1));
    assert_eq!(cursors.len(), 1);
    assert_eq!(cursors[0].key(), key_with_epoch(b"g".to_vec(), 1).as_slice());
    let wide = key_range(RangeEdge::Unbounded, RangeEdge::Included(b"c"));
    let cursors = manager.reverse_iters(&wide, &EpochRange::up_to(1));
    assert_eq!(cursors.len(), 2);
    assert_eq!(cursors[0].key(), key_with_epoch(b"c".to_vec(), 1).as_slice());
    assert_eq!(cursors[1].key(), key_with_epoch(b"g".to_vec(), 1).as_slice());
}

#[test]
fn range_overlap_honours_inclusivity() {
    let incl = key_range(RangeEdge::Included(b"c"), RangeEdge::Included(b"f"));
    assert!(range_overlap(&incl, b"a", b"c", false));
    assert!(range_overlap(&incl, b"f", b"z", false));
    assert!(!range_overlap(&incl, b"a", b"b", false));
    assert!(!range_overlap(&incl, b"g", b"z", false));
    assert!(range_overlap(&incl, b"d", b"e", false));
    assert!(range_overlap(&incl, b"a", b"z", false));
    let excl = key_range(RangeEdge::Excluded(b"c"), RangeEdge::Excluded(b"f"));
    assert!(!range_overlap(&excl, b"a", b"c", false));
    assert!(!range_overlap(&excl, b"f", b"z", false));
    assert!(range_overlap(&excl, b"a", b"d", false));
    assert!(range_overlap(&excl, b"e", b"z", false));
    let open = key_range(RangeEdge::Unbounded, RangeEdge::Unbounded);
    assert!(range_overlap(&open, b"a", b"b", false));
    assert!(range_overlap(&open, b"a", b"b", true));
}

#[test]
fn range_overlap_backward_swaps_the_ends() {
    let range = key_range(RangeEdge::Included(b"f"), RangeEdge::Excluded(b"c"));
    assert!(range_overlap(&range, b"d", b"e", true));
    assert!(range_overlap(&range, b"f", b"z", true));
    assert!(!range_overlap(&range, b"a", b"c", true));
    assert!(!range_overlap(&range, b"g", b"z", true));
    assert!(!range_overlap(&range, b"d", b"e", false));
}
