//! The task record: free-form text, a lifecycle status, and a creation
//! timestamp string, together with the error kinds the store reports.

use vstd::prelude::*;

verus! {

/// Lifecycle flag of a task record.
#[allow(non_camel_case_types)]
#[derive(Clone, Copy, Debug, PartialEq, Eq, Structural)]
pub enum Status {
    TODO,
    DONE,
}

/// The error kinds reported by the store and codec.
#[derive(Clone, Copy, Debug, PartialEq, Eq, Structural)]
pub enum TodoError {
    /// The backing file does not exist.
    StoreUnavailable,
    /// A persisted line cannot be decoded into a record.
    MalformedRecord,
    /// A record ID is outside the 1-based range of the record sequence.
    InvalidId,
    /// Reading or writing the backing file failed.
    IoFailure,
}

/// True when no character of `s` is a backslash; such text can never
/// contain the field delimiter or the trailing marker of the line format.
pub open spec fn no_backslash(s: Seq<char>) -> bool {
    forall|i: int| 0 <= i < s.len() ==> s[i] != '\\'
}

/// One task entry: description text, status, and the timestamp set at
/// creation and immutable thereafter.
#[derive(Debug, PartialEq, Eq)]
pub struct TodoItem {
    pub item: String,
    pub status: Status,
    pub time: String,
}

/// The mathematical model of a record: its three fields as plain values.
pub struct RecordModel {
    pub item: Seq<char>,
    pub status: Status,
    pub time: Seq<char>,
}

impl View for TodoItem {
    type V = RecordModel;

    open spec fn view(&self) -> RecordModel {
        RecordModel { item: self.item@, status: self.status, time: self.time@ }
    }
}

impl Clone for TodoItem {
    fn clone(&self) -> (r: Self)
        ensures
            r == *self,
    {
        TodoItem { item: self.item.clone(), status: self.status, time: self.time.clone() }
    }
}

impl TodoItem {
    /// A fresh record: the given text, status `TODO`, timestamped now.
    pub fn new(item: String) -> (r: TodoItem)
        ensures
            r.item == item,
            r.status == Status::TODO,
            no_backslash(r.time@),
    {
        let time = crate::time::get_time().unwrap();
        TodoItem { item, status: Status::TODO, time }
    }
}

} // verus!
