use todo_store::codec::decode_line;
use todo_store::codec::encode_record;
use todo_store::record::Status;
use todo_store::record::TodoError;
use todo_store::record::TodoItem;

fn rec(item: &str, status: Status, time: &str) -> TodoItem {
    TodoItem { item: item.to_string(), status, time: time.to_string() }
}

#[test]
fn encode_exact_line() {
    let r = rec("buy milk", Status::TODO, "2024-01-02 03:04:05");
    let line = encode_record(&r);
    assert_eq!(line, "buy milk\\t TODO\\t 2024-01-02 03:04:05\\r");
}

#[test]
fn decode_exact_line() {
    let r = decode_line("buy milk\\t TODO\\t 2024-01-02 03:04:05\\r").unwrap();
    assert_eq!(r.item, "buy milk");
    assert!(matches!(r.status, Status::TODO));
    assert_eq!(r.time, "2024-01-02 03:04:05");
}

#[test]
fn decode_done_status() {
    let r = decode_line("ship it\\t DONE\\t 2023-12-31 23:59:59\\r").unwrap();
    assert!(matches!(r.status, Status::DONE));
}

#[test]
fn decode_tolerates_missing_marker() {
    let r = decode_line("a\\t TODO\\t 2024-01-01 00:00:00").unwrap();
    assert_eq!(r.item, "a");
    assert_eq!(r.time, "2024-01-01 00:00:00");
}

#[test]
fn decode_empty_text_field() {
    let r = decode_line("\\t TODO\\t 2024-01-01 00:00:00\\r").unwrap();
    assert_eq!(r.item, "");
}

#[test]
fn round_trip_record_to_line_to_record() {
    let r = rec("water the plants", Status::DONE, "2022-06-01 12:00:00");
    let back = decode_line(&encode_record(&r)).unwrap();
    assert_eq!(back.item, r.item);
    assert_eq!(back.status, r.status);
    assert_eq!(back.time, r.time);
}

#[test]
fn round_trip_line_to_record_to_line() {
    let line = "call mom\\t TODO\\t 2024-05-06 07:08:09\\r";
    let back = encode_record(&decode_line(line).unwrap());
    assert_eq!(back, line);
}

#[test]
fn decode_rejects_too_few_fields() {
    assert_eq!(decode_line("no delimiters here\\r"), Err(TodoError::MalformedRecord));
    assert_eq!(decode_line("one\\t TODO\\r"), Err(TodoError::MalformedRecord));
    assert_eq!(decode_line(""), Err(TodoError::MalformedRecord));
}

#[test]
fn decode_rejects_extra_fields() {
    assert_eq!(
        decode_line("a\\t TODO\\t 2024-01-01 00:00:00\\t extra\\r"),
        Err(TodoError::MalformedRecord)
    );
}

#[test]
fn decode_rejects_unknown_status_token() {
    assert_eq!(
        decode_line("a\\t WAITING\\t 2024-01-01 00:00:00\\r"),
        Err(TodoError::MalformedRecord)
    );
    assert_eq!(
        decode_line("a\\t todo\\t 2024-01-01 00:00:00\\r"),
        Err(TodoError::MalformedRecord)
    );
}
