use hummock_state::key::key_with_epoch;
use hummock_state::memtable::{ImmutableMemtable, MemtableItem};
use hummock_state::uploader::{
    KeyRange, MemtableUploader, MemtableUploaderItem, SstableInfo, UploadedTable, UploaderStep,
};
use hummock_state::value::HummockValue;

fn put(user_key: &[u8], epoch: u64, payload: &[u8]) -> MemtableItem {
    (key_with_epoch(user_key.to_vec(), epoch), HummockValue::Put(payload.to_vec()))
}

fn memtable(keys: &[&[u8]], epoch: u64) -> ImmutableMemtable {
    ImmutableMemtable::new(keys.iter().map(|k| put(k, epoch, b"v")).collect(), epoch)
}

fn start_keys(memtables: &[ImmutableMemtable]) -> Vec<Vec<u8>> {
    memtables.iter().map(|m| m.start_user_key().to_vec()).collect()
}

#[test]
fn sync_with_nothing_queued_answers_at_once() {
    let mut uploader = MemtableUploader::new();
    let step = uploader.handle(MemtableUploaderItem::SYNC(Some(7u32)));
    assert!(matches!(step, UploaderStep::Synced { notify: Some(7) }));
    let step = uploader.handle(MemtableUploaderItem::<u32>::SYNC(None));
    assert!(matches!(step, UploaderStep::Synced { notify: None }));
    assert!(uploader.sync().is_none());
}

#[test]
fn queued_memtables_are_uploaded_in_key_order() {
    let mut uploader = MemtableUploader::new();
    for (keys, epoch) in [(&[&b"m"[..], b"n"][..], 3u64), (&[&b"x"[..]][..], 5), (&[&b"a"[..], b"c"][..], 4)] {
        let step = uploader.handle(MemtableUploaderItem::<u32>::MEMTABLE(memtable(keys, epoch)));
        assert!(matches!(step, UploaderStep::Queued));
    }
    match uploader.handle(MemtableUploaderItem::SYNC(Some(1u32))) {
        UploaderStep::Upload { memtables, epoch, notify } => {
            assert_eq!(epoch, 5);
            assert_eq!(notify, Some(1));
            assert_eq!(start_keys(&memtables), vec![b"a".to_vec(), b"m".to_vec(), b"x".to_vec()]);
            let entries = MemtableUploader::entries_in_order(&memtables);
            let expected = vec![
                put(b"a", 4, b"v"),
                put(b"c", 4, b"v"),
                put(b"m", 3, b"v"),
                put(b"n", 3, b"v"),
                put(b"x", 5, b"v"),
            ];
            assert_eq!(entries, expected);
        }
        _ => panic!("an upload was due"),
    }
}

#[test]
fn max_epoch_is_the_newest_ever_queued() {
    let mut uploader = MemtableUploader::new();
    uploader.handle(MemtableUploaderItem::<()>::MEMTABLE(memtable(&[b"a"], 9)));
    uploader.handle(MemtableUploaderItem::<()>::MEMTABLE(memtable(&[b"b"], 2)));
    match uploader.handle(MemtableUploaderItem::<()>::SYNC(None)) {
        UploaderStep::Upload { epoch, .. } => assert_eq!(epoch, 9),
        _ => panic!("an upload was due"),
    }
    uploader.finish_sync();
    uploader.handle(MemtableUploaderItem::<()>::MEMTABLE(memtable(&[b"c"], 4)));
    match uploader.handle(MemtableUploaderItem::<()>::SYNC(None)) {
        UploaderStep::Upload { epoch, memtables, .. } => {
            assert_eq!(epoch, 9);
            assert_eq!(memtables.len(), 1);
        }
        _ => panic!("an upload was due"),
    }
}

#[test]
fn a_failed_upload_is_tried_again() {
    let mut uploader = MemtableUploader::new();
    uploader.handle(MemtableUploaderItem::<()>::MEMTABLE(memtable(&[b"b"], 1)));
    uploader.handle(MemtableUploaderItem::<()>::MEMTABLE(memtable(&[b"a"], 1)));
    let first = uploader.sync().unwrap();
    let second = uploader.sync().unwrap();
    assert_eq!(start_keys(&first), vec![b"a".to_vec(), b"b".to_vec()]);
    assert_eq!(start_keys(&second), start_keys(&first));
    uploader.finish_sync();
    assert!(uploader.sync().is_none());
}

#[test]
fn equal_start_keys_of_different_epochs_both_go_out() {
    let mut uploader = MemtableUploader::new();
    uploader.handle(MemtableUploaderItem::<()>::MEMTABLE(memtable(&[b"k"], 2)));
    uploader.handle(MemtableUploaderItem::<()>::MEMTABLE(memtable(&[b"k"], 1)));
    let out = uploader.sync().unwrap();
    let mut epochs: Vec<u64> = out.iter().map(|m| m.epoch()).collect();
    assert_eq!(epochs, vec![2, 1]);
    epochs.sort();
    assert_eq!(epochs, vec![1, 2]);
}

#[test]
fn registration_describes_every_table() {
    let mut uploader = MemtableUploader::new();
    uploader.handle(MemtableUploaderItem::<()>::MEMTABLE(memtable(&[b"a"], 5)));
    assert_eq!(uploader.registration(&Vec::new()), None);
    let tables = vec![
        UploadedTable { id: 11, smallest_key: b"a".to_vec(), largest_key: b"f".to_vec() },
        UploadedTable { id: 12, smallest_key: b"g".to_vec(), largest_key: b"z".to_vec() },
    ];
    let expected = vec![
        SstableInfo {
            id: 11,
            key_range: Some(KeyRange { left: b"a".to_vec(), right: b"f".to_vec(), inf: false }),
        },
        SstableInfo {
            id: 12,
            key_range: Some(KeyRange { left: b"g".to_vec(), right: b"z".to_vec(), inf: false }),
        },
    ];
    assert_eq!(uploader.registration(&tables), Some((5, expected)));
}

#[test]
fn memtables_with_the_same_start_key_keep_their_order() {
    let first = ImmutableMemtable::new(vec![put(b"k", 1, b"first")], 1);
    let second = ImmutableMemtable::new(vec![put(b"k", 1, b"second"), put(b"l", 1, b"x")], 1);
    let third = ImmutableMemtable::new(vec![put(b"a", 1, b"third")], 1);

    let mut uploader = MemtableUploader::new();
    uploader.handle(MemtableUploaderItem::<()>::MEMTABLE(first.share()));
    uploader.handle(MemtableUploaderItem::<()>::MEMTABLE(second.share()));
    uploader.handle(MemtableUploaderItem::<()>::MEMTABLE(third.share()));
    let out = uploader.sync().unwrap();
    let payloads: Vec<Vec<u8>> =
        out.iter().map(|m| m.get(m.start_user_key()).unwrap().into_put_value().unwrap()).collect();
    assert_eq!(payloads, vec![b"third".to_vec(), b"first".to_vec(), b"second".to_vec()]);

    let mut uploader = MemtableUploader::new();
    uploader.handle(MemtableUploaderItem::<()>::MEMTABLE(second));
    uploader.handle(MemtableUploaderItem::<()>::MEMTABLE(third));
    uploader.handle(MemtableUploaderItem::<()>::MEMTABLE(first));
    let out = uploader.sync().unwrap();
    let payloads: Vec<Vec<u8>> =
        out.iter().map(|m| m.get(m.start_user_key()).unwrap().into_put_value().unwrap()).collect();
    assert_eq!(payloads, vec![b"third".to_vec(), b"second".to_vec(), b"first".to_vec()]);
}
