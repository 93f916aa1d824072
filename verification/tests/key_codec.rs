use hummock_state::key::{
    compare_bytes, concat_bytes, copy_bytes, get_epoch, key_with_epoch, serialize_cell_idx,
    user_key, ByteOrder, CELL_IDX_LEN, EPOCH_LEN,
};

#[test]
fn compare_orders_lexicographically() {
    assert_eq!(compare_bytes(b"abc", b"abd"), ByteOrder::Less);
    assert_eq!(compare_bytes(b"abd", b"abc"), ByteOrder::Greater);
    assert_eq!(compare_bytes(b"abc", b"abc"), ByteOrder::Equal);
    assert_eq!(compare_bytes(b"ab", b"abc"), ByteOrder::Less);
    assert_eq!(compare_bytes(b"abc", b"ab"), ByteOrder::Greater);
    assert_eq!(compare_bytes(b"", b""), ByteOrder::Equal);
    assert_eq!(compare_bytes(b"", b"\x00"), ByteOrder::Less);
    assert_eq!(compare_bytes(b"\xff", b"\x00\x00"), ByteOrder::Greater);
}

#[test]
fn compare_agrees_with_slice_order() {
    let samples: Vec<&[u8]> = vec![b"", b"a", b"aa", b"ab", b"b", b"\x00", b"\xff", b"a\x00"];
    for a in samples.iter() {
        for b in samples.iter() {
            let expected = match a.cmp(b) {
                std::cmp::Ordering::Less => ByteOrder::Less,
                std::cmp::Ordering::Equal => ByteOrder::Equal,
                std::cmp::Ordering::Greater => ByteOrder::Greater,
            };
            assert_eq!(compare_bytes(a, b), expected);
        }
    }
}

#[test]
fn full_key_layout() {
    assert_eq!(EPOCH_LEN, 8);
    let full = key_with_epoch(b"user".to_vec(), 10);
    assert_eq!(full.len(), 4 + EPOCH_LEN);
    assert_eq!(&full[..4], b"user");
    assert_eq!(&full[4..], &[0xff, 0xff, 0xff, 0xff, 0xff, 0xff, 0xff, 0xf5]);
    assert_eq!(user_key(&full), b"user");
    assert_eq!(get_epoch(&full), 10);
}

#[test]
fn full_key_round_trip_at_the_edges() {
    for epoch in [0u64, 1, 255, 256, 0x0102_0304_0506_0708, u64::MAX - 1, u64::MAX] {
        let full = key_with_epoch(Vec::new(), epoch);
        assert_eq!(full.len(), EPOCH_LEN);
        assert_eq!(user_key(&full), b"");
        assert_eq!(get_epoch(&full), epoch);
    }
    assert_eq!(key_with_epoch(Vec::new(), u64::MAX), vec![0u8; 8]);
    assert_eq!(key_with_epoch(Vec::new(), 0), vec![0xffu8; 8]);
}

#[test]
fn later_epoch_sorts_first() {
    let older = key_with_epoch(b"k".to_vec(), 10);
    let newer = key_with_epoch(b"k".to_vec(), 20);
    assert_eq!(compare_bytes(&newer, &older), ByteOrder::Less);
    let next_key = key_with_epoch(b"l".to_vec(), 20);
    assert_eq!(compare_bytes(&older, &next_key), ByteOrder::Less);
}

#[test]
fn cell_index_is_big_endian() {
    assert_eq!(CELL_IDX_LEN, 4);
    assert_eq!(serialize_cell_idx(0), vec![0, 0, 0, 0]);
    assert_eq!(serialize_cell_idx(1), vec![0, 0, 0, 1]);
    assert_eq!(serialize_cell_idx(0x0102_0304), vec![1, 2, 3, 4]);
    assert_eq!(serialize_cell_idx(u32::MAX), vec![0xff, 0xff, 0xff, 0xff]);
}

#[test]
fn copies_and_concatenations() {
    assert_eq!(copy_bytes(b"abc"), b"abc".to_vec());
    assert_eq!(copy_bytes(b""), Vec::<u8>::new());
    assert_eq!(concat_bytes(b"ab", b"cd"), b"abcd".to_vec());
    assert_eq!(concat_bytes(b"", b"cd"), b"cd".to_vec());
    assert_eq!(concat_bytes(b"ab", b""), b"ab".to_vec());
}
