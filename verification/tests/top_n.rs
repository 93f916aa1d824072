use std::collections::BTreeMap;

use bytes::Bytes;
use hummock_state::top_n_state::{assemble_rows, Keyspace, ManagedTopNState, Row, StateError};

const PREFIX: &[u8] = b"\x23\x33";

/// A store held in memory: ordered, keyed by the full stored key.
struct MemoryStore {
    cells: BTreeMap<Vec<u8>, Vec<u8>>,
}

impl MemoryStore {
    fn new() -> Self {
        MemoryStore { cells: BTreeMap::new() }
    }

    fn ingest_batch(&mut self, writes: Vec<(Bytes, Option<Bytes>)>) {
        for (key, value) in writes {
            match value {
                Some(v) => {
                    self.cells.insert(key.to_vec(), v.to_vec());
                }
                None => {
                    self.cells.remove(&key.to_vec());
                }
            }
        }
    }

    fn scan_strip_prefix(&self, prefix: &[u8], limit: Option<usize>) -> Vec<(Bytes, Bytes)> {
        self.cells
            .iter()
            .filter(|(k, _)| k.starts_with(prefix))
            .take(limit.unwrap_or(usize::MAX))
            .map(|(k, v)| (Bytes::from(k[prefix.len()..].to_vec()), Bytes::from(v.clone())))
            .collect()
    }
}

/// The key of a row under the order (text descending, number ascending).
fn ordered_key(number: i64, text: &str) -> Bytes {
    let mut key = Vec::new();
    let mut padded = text.as_bytes().to_vec();
    padded.resize(5, 0);
    for b in padded {
        key.push(0xff - b);
    }
    key.extend_from_slice(&((number as u64) ^ (1u64 << 63)).to_be_bytes());
    Bytes::from(key)
}

fn row(number: i64, text: &str) -> Row {
    Row(vec![number.to_be_bytes().to_vec(), text.as_bytes().to_vec()])
}

fn create_managed_top_n_state(row_count: usize) -> ManagedTopNState {
    ManagedTopNState::new(Some(2), row_count, Keyspace::new(PREFIX.to_vec()), 2)
}

fn flush_to(state: &mut ManagedTopNState, store: &mut MemoryStore) {
    if let Some(writes) = state.flush() {
        store.ingest_batch(writes);
    }
}

fn fill_from(state: &mut ManagedTopNState, store: &MemoryStore) {
    let cells = store.scan_strip_prefix(PREFIX, state.fill_limit());
    state.fill_in_cache(&cells).unwrap();
}

fn pop_from(state: &mut ManagedTopNState, store: &MemoryStore) -> Option<(Bytes, Row)> {
    let popped = state.pop_top_element();
    if state.needs_refill() {
        state.refill(&store.scan_strip_prefix(PREFIX, None)).unwrap();
    }
    popped
}

#[test]
fn test_managed_top_n_state() {
    let mut store = MemoryStore::new();
    let mut managed_state = create_managed_top_n_state(0);
    let row1 = row(2, "abc");
    let row2 = row(3, "abc");
    let row3 = row(3, "abd");
    let row4 = row(4, "ab");
    let rows_bytes =
        vec![ordered_key(2, "abc"), ordered_key(3, "abc"), ordered_key(3, "abd"), ordered_key(4, "ab")];
    managed_state.insert(rows_bytes[3].clone(), row4.clone());
    // now (4, "ab")

    assert_eq!(managed_state.top_element(), Some((&rows_bytes[3], &row4)));
    assert!(managed_state.is_dirty());
    assert_eq!(managed_state.get_cache_len(), 1);

    managed_state.insert(rows_bytes[2].clone(), row3.clone());
    // now (3, "abd") -> (4, "ab")

    assert_eq!(managed_state.top_element(), Some((&rows_bytes[2], &row3)));
    assert!(managed_state.is_dirty());
    assert_eq!(managed_state.get_cache_len(), 2);

    managed_state.insert(rows_bytes[1].clone(), row2.clone());
    // now (3, "abd") -> (3, "abc") -> (4, "ab")

    assert_eq!(managed_state.top_element(), Some((&rows_bytes[2], &row3)));
    assert_eq!(managed_state.get_cache_len(), 3);
    flush_to(&mut managed_state, &mut store);
    assert!(!managed_state.is_dirty());
    let row_count = managed_state.total_count();
    assert_eq!(row_count, 3);
    // After flush, only 2 elements should be kept in the cache.
    assert_eq!(managed_state.get_cache_len(), 2);

    drop(managed_state);
    let mut managed_state = create_managed_top_n_state(row_count);
    assert_eq!(managed_state.top_element(), None);
    fill_from(&mut managed_state, &store);
    // now (3, "abd") -> (3, "abc") -> (4, "ab")
    assert_eq!(managed_state.top_element(), Some((&rows_bytes[2], &row3)));
    // Right after recovery.
    assert!(!managed_state.is_dirty());
    assert_eq!(managed_state.get_cache_len(), 2);
    assert_eq!(managed_state.total_count(), 3);

    assert_eq!(
        pop_from(&mut managed_state, &store),
        Some((rows_bytes[2].clone(), row3.clone()))
    );
    // now (3, "abd") on storage -> (3, "abc") in memory
    assert!(managed_state.is_dirty());
    assert_eq!(managed_state.total_count(), 2);
    assert_eq!(managed_state.get_cache_len(), 1);
    assert_eq!(
        pop_from(&mut managed_state, &store),
        Some((rows_bytes[1].clone(), row2.clone()))
    );
    // now (3, "abc") on storage
    // Popping to 0 element but automatically get at most `2` elements from the storage.
    // However, here we only have one element left as the `total_count` indicates.
    // The state is dirty as we didn't flush.
    assert!(managed_state.is_dirty());
    assert_eq!(managed_state.total_count(), 1);
    assert_eq!(managed_state.get_cache_len(), 1);

    assert_eq!(managed_state.top_element(), Some((&rows_bytes[3], &row4)));

    managed_state.insert(rows_bytes[0].clone(), row1.clone());
    assert_eq!(managed_state.top_element(), Some((&rows_bytes[0], &row1)));

    // Exclude the last `insert` as the state crashes before recovery.
    let row_count = managed_state.total_count() - 1;
    drop(managed_state);
    let mut managed_state = create_managed_top_n_state(row_count);
    fill_from(&mut managed_state, &store);
    assert_eq!(managed_state.top_element(), Some((&rows_bytes[2], &row3)));
}

#[test]
fn flush_writes_one_cell_per_column() {
    let mut state = create_managed_top_n_state(0);
    let key = Bytes::from_static(b"pk");
    state.insert(key.clone(), row(7, "seven"));
    let writes = state.flush().unwrap();
    let expected = vec![
        (Bytes::from_static(b"\x23\x33pk\x00\x00\x00\x00"), Some(Bytes::from(7i64.to_be_bytes().to_vec()))),
        (Bytes::from_static(b"\x23\x33pk\x00\x00\x00\x01"), Some(Bytes::from_static(b"seven"))),
    ];
    assert_eq!(writes, expected);
    assert!(!state.is_dirty());
    assert_eq!(state.flush(), None);
}

#[test]
fn flush_writes_tombstones_for_deleted_keys() {
    let mut state = create_managed_top_n_state(0);
    let a = Bytes::from_static(b"a");
    let b = Bytes::from_static(b"b");
    state.insert(b.clone(), row(2, "two"));
    state.insert(a.clone(), row(1, "one"));
    assert_eq!(state.delete(&a), Some(row(1, "one")));
    let writes = state.flush().unwrap();
    let expected = vec![
        (Bytes::from_static(b"\x23\x33a\x00\x00\x00\x00"), None),
        (Bytes::from_static(b"\x23\x33a\x00\x00\x00\x01"), None),
        (Bytes::from_static(b"\x23\x33b\x00\x00\x00\x00"), Some(Bytes::from(2i64.to_be_bytes().to_vec()))),
        (Bytes::from_static(b"\x23\x33b\x00\x00\x00\x01"), Some(Bytes::from_static(b"two"))),
    ];
    assert_eq!(writes, expected);
    assert_eq!(state.total_count(), 1);
}

#[test]
fn flush_folding() {
    let mut store = MemoryStore::new();
    let mut state = create_managed_top_n_state(0);
    let k = ordered_key(1, "k");
    state.insert(k.clone(), row(1, "v1"));
    assert_eq!(state.delete(&k), Some(row(1, "v1")));
    assert!(!state.needs_refill());
    state.insert(k.clone(), row(1, "v2"));
    assert_eq!(state.total_count(), 1);
    let writes = state.flush().unwrap();
    assert_eq!(writes.len(), 2);
    assert_eq!(writes[0].1, Some(Bytes::from(1i64.to_be_bytes().to_vec())));
    assert_eq!(writes[1].1, Some(Bytes::from_static(b"v2")));
    store.ingest_batch(writes);

    let mut reloaded = create_managed_top_n_state(1);
    fill_from(&mut reloaded, &store);
    assert_eq!(reloaded.top_element(), Some((&k, &row(1, "v2"))));
    assert_eq!(reloaded.total_count(), 1);
    assert_eq!(reloaded.get_cache_len(), 1);
}

#[test]
fn a_second_insert_on_a_key_replaces_the_row() {
    let mut state = create_managed_top_n_state(0);
    let k = Bytes::from_static(b"k");
    state.insert(k.clone(), row(1, "a"));
    state.insert(k.clone(), row(1, "b"));
    assert_eq!(state.get_cache_len(), 1);
    assert_eq!(state.total_count(), 2);
    assert_eq!(state.top_element(), Some((&k, &row(1, "b"))));
    let writes = state.flush().unwrap();
    assert_eq!(writes.len(), 2);
    assert_eq!(writes[1].1, Some(Bytes::from_static(b"b")));
}

#[test]
fn retain_top_n_cuts_to_the_bound() {
    let mut state = create_managed_top_n_state(0);
    for n in 0..5u8 {
        state.insert(Bytes::from(vec![b'k', n]), row(n as i64, "x"));
    }
    assert_eq!(state.get_cache_len(), 5);
    state.retain_top_n();
    assert_eq!(state.get_cache_len(), 2);
    assert_eq!(state.top_element(), Some((&Bytes::from_static(b"k\x00"), &row(0, "x"))));
    assert_eq!(state.total_count(), 5);
    state.retain_top_n();
    assert_eq!(state.get_cache_len(), 2);
}

#[test]
fn an_unbounded_cache_keeps_everything() {
    let mut state = ManagedTopNState::new(None, 0, Keyspace::new(Vec::new()), 2);
    for n in 0..5u8 {
        state.insert(Bytes::from(vec![n]), row(n as i64, "x"));
    }
    assert_eq!(state.fill_limit(), None);
    assert!(state.flush().is_some());
    assert_eq!(state.get_cache_len(), 5);
}

#[test]
fn fill_limit_counts_cells() {
    assert_eq!(create_managed_top_n_state(0).fill_limit(), Some(4));
    let wide = ManagedTopNState::new(Some(3), 0, Keyspace::new(Vec::new()), 5);
    assert_eq!(wide.fill_limit(), Some(15));
}

#[test]
fn pops_come_in_ascending_key_order() {
    let mut store = MemoryStore::new();
    let mut state = create_managed_top_n_state(0);
    let keys: Vec<Bytes> = (0..6u8).map(|n| Bytes::from(vec![b'k', n])).collect();
    for (n, key) in keys.iter().enumerate().rev() {
        state.insert(key.clone(), row(n as i64, "x"));
    }
    flush_to(&mut state, &mut store);
    assert_eq!(state.get_cache_len(), 2);
    let mut popped = Vec::new();
    while let Some((key, _)) = pop_from(&mut state, &store) {
        popped.push(key);
    }
    assert_eq!(popped, keys);
    assert_eq!(state.total_count(), 0);
    assert_eq!(state.top_element(), None);
    assert_eq!(state.pop_top_element(), None);
}

#[test]
fn empty_state_has_no_top() {
    let mut state = create_managed_top_n_state(0);
    assert_eq!(state.top_element(), None);
    assert_eq!(state.pop_top_element(), None);
    assert!(!state.is_dirty());
    assert!(!state.needs_refill());
    assert_eq!(state.total_count(), 0);
}

#[test]
fn keyspace_prefixes_keys() {
    let keyspace = Keyspace::new(b"ns/".to_vec());
    assert_eq!(keyspace.prefixed_key(b"key"), b"ns/key".to_vec());
    assert_eq!(Keyspace::new(Vec::new()).prefixed_key(b"key"), b"key".to_vec());
}

fn cell(key: &[u8], value: &[u8]) -> (Bytes, Bytes) {
    (Bytes::from(key.to_vec()), Bytes::from(value.to_vec()))
}

#[test]
fn assemble_rows_groups_cells() {
    let cells = vec![
        cell(b"a\x00\x00\x00\x00", b"a0"),
        cell(b"a\x00\x00\x00\x01", b"a1"),
        cell(b"b\x00\x00\x00\x00", b"b0"),
        cell(b"b\x00\x00\x00\x01", b"b1"),
    ];
    let rows = assemble_rows(&cells, 2).unwrap();
    assert_eq!(
        rows,
        vec![
            (Bytes::from_static(b"a"), Row(vec![b"a0".to_vec(), b"a1".to_vec()])),
            (Bytes::from_static(b"b"), Row(vec![b"b0".to_vec(), b"b1".to_vec()])),
        ]
    );
    assert_eq!(assemble_rows(&Vec::new(), 2), Ok(Vec::new()));
    assert_eq!(assemble_rows(&Vec::new(), 0), Ok(Vec::new()));
    let single = assemble_rows(&cells, 1).unwrap();
    assert_eq!(single.len(), 4);
    assert_eq!(single[1], (Bytes::from_static(b"a"), Row(vec![b"a1".to_vec()])));
}

#[test]
fn assemble_rows_rejects_broken_scans() {
    let three = vec![cell(b"a\x00\x00\x00\x00", b"0"), cell(b"a\x00\x00\x00\x01", b"1"), cell(b"b\x00\x00\x00\x00", b"0")];
    assert_eq!(assemble_rows(&three, 2), Err(StateError::IncompleteRow));
    assert_eq!(assemble_rows(&three, 0), Err(StateError::IncompleteRow));
    let short = vec![cell(b"a\x00\x00\x00\x00", b"0"), cell(b"abc", b"1")];
    assert_eq!(assemble_rows(&short, 2), Err(StateError::MalformedCellKey));
    let short_first = vec![cell(b"abc", b"0"), cell(b"a\x00\x00\x00\x01", b"1")];
    assert!(assemble_rows(&short_first, 2).is_ok());
    let both = vec![cell(b"abc", b"0")];
    assert_eq!(assemble_rows(&both, 2), Err(StateError::IncompleteRow));
}

#[test]
fn fill_in_cache_rejects_broken_scans_and_keeps_the_state() {
    let mut state = create_managed_top_n_state(3);
    let odd = vec![cell(b"a\x00\x00\x00\x00", b"0")];
    assert_eq!(state.fill_in_cache(&odd), Err(StateError::IncompleteRow));
    assert_eq!(state.get_cache_len(), 0);
    assert_eq!(state.total_count(), 3);
}

#[test]
fn scan_and_merge_follows_the_flush_buffer() {
    let mut state = ManagedTopNState::new(None, 3, Keyspace::new(Vec::new()), 1);
    let (a, b, c) = (Bytes::from_static(b"a"), Bytes::from_static(b"b"), Bytes::from_static(b"c"));
    state.insert(a.clone(), Row(vec![b"gone".to_vec()]));
    assert_eq!(state.delete(&a), Some(Row(vec![b"gone".to_vec()])));
    state.insert(b.clone(), Row(vec![b"buffered b".to_vec()]));
    assert_eq!(state.delete(&b), Some(Row(vec![b"buffered b".to_vec()])));
    state.insert(b.clone(), Row(vec![b"buffered b".to_vec()]));
    assert_eq!(state.pop_top_element(), Some((b.clone(), Row(vec![b"buffered b".to_vec()]))));
    state.insert(b.clone(), Row(vec![b"latest b".to_vec()]));
    assert_eq!(state.pop_top_element(), Some((b.clone(), Row(vec![b"latest b".to_vec()]))));
    state.insert(b.clone(), Row(vec![b"latest b".to_vec()]));
    assert_eq!(state.get_cache_len(), 1);

    let cells = vec![
        cell(b"a\x00\x00\x00\x00", b"stored a"),
        cell(b"b\x00\x00\x00\x00", b"stored b"),
        cell(b"c\x00\x00\x00\x00", b"stored c"),
    ];
    assert_eq!(state.scan_and_merge(&cells), Ok(()));
    assert_eq!(state.get_cache_len(), 2);
    assert_eq!(state.pop_top_element(), Some((b, Row(vec![b"latest b".to_vec()]))));
    assert_eq!(state.pop_top_element(), Some((c, Row(vec![b"stored c".to_vec()]))));
    assert_eq!(state.get_cache_len(), 0);
}

#[test]
fn scan_and_merge_takes_untouched_rows_above_the_buffer() {
    let mut state = ManagedTopNState::new(Some(10), 3, Keyspace::new(Vec::new()), 1);
    let a = Bytes::from_static(b"a");
    state.insert(a.clone(), Row(vec![b"new".to_vec()]));
    let cells = vec![
        cell(b"a\x00\x00\x00\x00", b"stored a"),
        cell(b"b\x00\x00\x00\x00", b"stored b"),
        cell(b"c\x00\x00\x00\x00", b"stored c"),
    ];
    assert_eq!(state.scan_and_merge(&cells), Ok(()));
    assert_eq!(state.get_cache_len(), 3);
    assert_eq!(state.top_element(), Some((&a, &Row(vec![b"new".to_vec()]))));
    assert_eq!(state.pop_top_element().unwrap().1, Row(vec![b"new".to_vec()]));
    assert_eq!(state.pop_top_element(), Some((Bytes::from_static(b"b"), Row(vec![b"stored b".to_vec()]))));
    assert_eq!(state.pop_top_element(), Some((Bytes::from_static(b"c"), Row(vec![b"stored c".to_vec()]))));
}

#[test]
fn scan_and_merge_reports_what_it_cannot_merge() {
    let mut state = ManagedTopNState::new(Some(10), 3, Keyspace::new(Vec::new()), 1);
    state.insert(Bytes::from_static(b"m"), Row(vec![b"m".to_vec()]));

    let below_buffer = vec![cell(b"a\x00\x00\x00\x00", b"a")];
    assert_eq!(state.scan_and_merge(&below_buffer), Err(StateError::CursorInvariant));
    let unordered = vec![cell(b"z\x00\x00\x00\x00", b"z"), cell(b"y\x00\x00\x00\x00", b"y")];
    assert_eq!(state.scan_and_merge(&unordered), Err(StateError::UnorderedScan));
    let repeated = vec![cell(b"z\x00\x00\x00\x00", b"z"), cell(b"z\x00\x00\x00\x00", b"z")];
    assert_eq!(state.scan_and_merge(&repeated), Err(StateError::UnorderedScan));
    let short = vec![cell(b"z", b"z")];
    assert_eq!(state.scan_and_merge(&short), Err(StateError::MalformedCellKey));
    assert_eq!(state.refill(&below_buffer), Err(StateError::CursorInvariant));

    assert_eq!(state.get_cache_len(), 1);
    assert_eq!(state.total_count(), 4);
    assert!(state.is_dirty());
}

#[test]
fn refill_cuts_the_cache_to_its_bound() {
    let mut state = ManagedTopNState::new(Some(2), 3, Keyspace::new(Vec::new()), 1);
    let cells = vec![
        cell(b"a\x00\x00\x00\x00", b"a"),
        cell(b"b\x00\x00\x00\x00", b"b"),
        cell(b"c\x00\x00\x00\x00", b"c"),
    ];
    assert!(state.needs_refill());
    assert_eq!(state.refill(&cells), Ok(()));
    assert_eq!(state.get_cache_len(), 2);
    assert!(!state.needs_refill());
    assert_eq!(state.top_element().unwrap().0, &Bytes::from_static(b"a"));
}

#[test]
fn row_copies_are_equal() {
    let r = row(5, "five");
    assert_eq!(r.duplicate(), r);
    assert_eq!(Row(Vec::new()).duplicate(), Row(Vec::new()));
}
