use todo_store::record::Status;
use todo_store::record::TodoError;
use todo_store::record::TodoItem;
use todo_store::store::Store;

#[test]
fn fresh_record_is_todo_with_clean_timestamp() {
    let r = TodoItem::new("buy milk".to_string());
    assert_eq!(r.item, "buy milk");
    assert!(matches!(r.status, Status::TODO));
    assert!(!r.time.contains('\\'));
}

#[test]
fn get_time_yields_backslash_free_string() {
    let t = todo_store::time::get_time().unwrap();
    assert!(!t.contains('\\'));
    assert!(!t.is_empty());
}

#[test]
fn empty_store_lists_nothing() {
    let s = Store::empty();
    let rows = s.list_rows(&None);
    assert!(rows.is_empty());
}

#[test]
fn add_one_record() {
    let mut s = Store::empty();
    s.add("buy milk".to_string());
    assert_eq!(s.records.len(), 1);
    let rows = s.list_rows(&None);
    assert_eq!(rows.len(), 1);
    assert_eq!(rows[0].id, 1);
    assert_eq!(rows[0].item.item, "buy milk");
    assert!(matches!(rows[0].item.status, Status::TODO));
}

#[test]
fn remove_first_renumbers_survivor() {
    let mut s = Store::empty();
    s.add("a".to_string());
    s.add("b".to_string());
    assert_eq!(s.remove(1), Ok(()));
    let rows = s.list_rows(&None);
    assert_eq!(rows.len(), 1);
    assert_eq!(rows[0].id, 1);
    assert_eq!(rows[0].item.item, "b");
}

#[test]
fn complete_out_of_range_leaves_store_unchanged() {
    let mut s = Store::empty();
    s.add("a".to_string());
    s.add("b".to_string());
    let before: Vec<String> = s.to_lines();
    assert_eq!(s.complete(5), Err(TodoError::InvalidId));
    assert_eq!(s.to_lines(), before);
    assert!(matches!(s.records[0].status, Status::TODO));
    assert!(matches!(s.records[1].status, Status::TODO));
}

#[test]
fn complete_zero_is_invalid() {
    let mut s = Store::empty();
    s.add("a".to_string());
    assert_eq!(s.complete(0), Err(TodoError::InvalidId));
}

#[test]
fn remove_out_of_range_is_invalid() {
    let mut s = Store::empty();
    s.add("a".to_string());
    assert_eq!(s.remove(2), Err(TodoError::InvalidId));
    assert_eq!(s.remove(0), Err(TodoError::InvalidId));
    assert_eq!(s.records.len(), 1);
}

#[test]
fn remove_on_empty_store_is_invalid() {
    let mut s = Store::empty();
    assert_eq!(s.remove(1), Err(TodoError::InvalidId));
}

#[test]
fn complete_changes_only_the_status() {
    let mut s = Store::empty();
    s.add("a".to_string());
    s.add("b".to_string());
    let text = s.records[1].item.clone();
    let time = s.records[1].time.clone();
    assert_eq!(s.complete(2), Ok(()));
    assert!(matches!(s.records[1].status, Status::DONE));
    assert_eq!(s.records[1].item, text);
    assert_eq!(s.records[1].time, time);
    assert!(matches!(s.records[0].status, Status::TODO));
}

#[test]
fn load_decodes_every_line_in_order() {
    let lines = vec![
        "a\\t TODO\\t 2024-01-01 00:00:00\\r".to_string(),
        "b\\t DONE\\t 2024-01-02 00:00:00\\r".to_string(),
    ];
    let s = Store::from_lines(&lines).unwrap();
    assert_eq!(s.records.len(), 2);
    assert_eq!(s.records[0].item, "a");
    assert!(matches!(s.records[1].status, Status::DONE));
}

#[test]
fn load_fails_on_one_bad_line() {
    let lines = vec![
        "a\\t TODO\\t 2024-01-01 00:00:00\\r".to_string(),
        "not a record".to_string(),
    ];
    assert!(matches!(Store::from_lines(&lines), Err(TodoError::MalformedRecord)));
}

#[test]
fn mutations_persist_through_lines() {
    let mut s = Store::empty();
    s.add("a".to_string());
    s.add("b".to_string());
    assert_eq!(s.complete(1), Ok(()));
    let lines = s.to_lines();
    let back = Store::from_lines(&lines).unwrap();
    assert_eq!(back.records.len(), 2);
    assert!(matches!(back.records[0].status, Status::DONE));
    assert_eq!(back.records[0].item, "a");
    assert_eq!(back.records[1].item, "b");
}
