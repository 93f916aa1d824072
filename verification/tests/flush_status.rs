use hummock_state::flush_status::FlushStatus;

#[test]
fn transitions_on_insert() {
    assert_eq!(FlushStatus::do_insert(None, 1), FlushStatus::Insert(1));
    assert_eq!(FlushStatus::do_insert(Some(FlushStatus::Insert(1)), 2), FlushStatus::Insert(2));
    assert_eq!(FlushStatus::do_insert(Some(FlushStatus::Delete), 3), FlushStatus::DeleteInsert(3));
    assert_eq!(
        FlushStatus::do_insert(Some(FlushStatus::DeleteInsert(3)), 4),
        FlushStatus::DeleteInsert(4)
    );
}

#[test]
fn transitions_on_delete() {
    assert_eq!(FlushStatus::<i32>::do_delete(None), FlushStatus::Delete);
    assert_eq!(FlushStatus::do_delete(Some(FlushStatus::Insert(1))), FlushStatus::Delete);
    assert_eq!(FlushStatus::<i32>::do_delete(Some(FlushStatus::Delete)), FlushStatus::Delete);
    assert_eq!(FlushStatus::do_delete(Some(FlushStatus::DeleteInsert(1))), FlushStatus::Delete);
}

#[test]
fn into_option_collapses() {
    assert_eq!(FlushStatus::<i32>::Delete.into_option(), None);
    assert_eq!(FlushStatus::Insert(5).into_option(), Some(5));
    assert_eq!(FlushStatus::DeleteInsert(6).into_option(), Some(6));
}

#[test]
fn folding_keeps_the_last_change() {
    let mut status: Option<FlushStatus<i32>> = None;
    let changes: Vec<Option<i32>> = vec![Some(1), None, Some(2), Some(3), None, Some(4)];
    for change in changes.iter() {
        status = Some(match change {
            Some(v) => FlushStatus::do_insert(status, *v),
            None => FlushStatus::do_delete(status),
        });
        assert_eq!(status.clone().unwrap().into_option(), *change);
    }
    assert_eq!(status, Some(FlushStatus::DeleteInsert(4)));
}
