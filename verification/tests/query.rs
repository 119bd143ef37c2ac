use todo_store::query::Filter;
use todo_store::query::Order;
use todo_store::record::Status;
use todo_store::record::TodoItem;
use todo_store::store::Store;

fn rec(item: &str, status: Status, time: &str) -> TodoItem {
    TodoItem { item: item.to_string(), status, time: time.to_string() }
}

fn sample() -> Store {
    Store {
        records: vec![
            rec("a", Status::TODO, "2024-01-03 00:00:00"),
            rec("b", Status::DONE, "2024-01-01 00:00:00"),
            rec("c", Status::TODO, "2024-01-02 00:00:00"),
            rec("d", Status::DONE, "2024-01-01 00:00:00"),
        ],
    }
}

#[test]
fn unfiltered_view_keeps_file_order_and_ids() {
    let s = sample();
    let rows = s.list_rows(&None);
    assert_eq!(rows.len(), 4);
    for (i, row) in rows.iter().enumerate() {
        assert_eq!(row.id, i + 1);
    }
    assert_eq!(rows[2].item.item, "c");
}

#[test]
fn status_filter_keeps_original_ids_and_order() {
    let s = sample();
    let rows = s.list_rows(&Some(Filter::Status(Status::TODO)));
    assert_eq!(rows.len(), 2);
    assert_eq!(rows[0].id, 1);
    assert_eq!(rows[0].item.item, "a");
    assert_eq!(rows[1].id, 3);
    assert_eq!(rows[1].item.item, "c");
    for row in &rows {
        assert!(matches!(row.item.status, Status::TODO));
    }
}

#[test]
fn done_filter_after_complete_keeps_position() {
    let mut s = Store::empty();
    s.add("a".to_string());
    s.add("b".to_string());
    assert_eq!(s.complete(2), Ok(()));
    let rows = s.list_rows(&Some(Filter::Status(Status::DONE)));
    assert_eq!(rows.len(), 1);
    assert_eq!(rows[0].id, 2);
    assert_eq!(rows[0].item.item, "b");
}

#[test]
fn ascending_sort_is_nondecreasing_by_timestamp() {
    let s = sample();
    let rows = s.list_rows(&Some(Filter::Order(Order::ASCTIME)));
    assert_eq!(rows.len(), 4);
    for w in rows.windows(2) {
        assert!(w[0].item.time <= w[1].item.time);
    }
    assert_eq!(rows[3].item.item, "a");
}

#[test]
fn descending_sort_is_nonincreasing_by_timestamp() {
    let s = sample();
    let rows = s.list_rows(&Some(Filter::Order(Order::DESCTIME)));
    for w in rows.windows(2) {
        assert!(w[0].item.time >= w[1].item.time);
    }
    assert_eq!(rows[0].item.item, "a");
}

#[test]
fn equal_timestamps_keep_original_order() {
    let s = sample();
    let rows = s.list_rows(&Some(Filter::Order(Order::ASCTIME)));
    assert_eq!(rows[0].item.item, "b");
    assert_eq!(rows[0].id, 2);
    assert_eq!(rows[1].item.item, "d");
    assert_eq!(rows[1].id, 4);
}

#[test]
fn sorted_view_carries_ids_with_rows() {
    let s = sample();
    let rows = s.list_rows(&Some(Filter::Order(Order::ASCTIME)));
    for row in &rows {
        assert_eq!(s.records[row.id - 1].item, row.item.item);
    }
}

#[test]
fn append_never_changes_existing_ids() {
    let mut s = sample();
    let before = s.list_rows(&None);
    s.add("e".to_string());
    let after = s.list_rows(&None);
    assert_eq!(after.len(), before.len() + 1);
    for (old, new) in before.iter().zip(after.iter()) {
        assert_eq!(old.id, new.id);
        assert_eq!(old.item.item, new.item.item);
    }
}

#[test]
fn removal_shifts_later_ids_down_by_one() {
    let mut s = sample();
    let before = s.list_rows(&None);
    assert_eq!(s.remove(2), Ok(()));
    let after = s.list_rows(&None);
    assert_eq!(after.len(), 3);
    assert_eq!(after[0].id, before[0].id);
    assert_eq!(after[0].item.item, before[0].item.item);
    for i in 1..after.len() {
        assert_eq!(after[i].id, before[i + 1].id - 1);
        assert_eq!(after[i].item.item, before[i + 1].item.item);
    }
}
