//! The store: the complete ordered sequence of task records as loaded from
//! the backing file, with the add/complete/remove mutations. Positional IDs
//! are 1-based indices into this sequence; they are never persisted and are
//! recomputed on every load.

use vstd::prelude::*;
use crate::codec::decode_line;
use crate::codec::decode_model;
use crate::codec::encode_model;
use crate::codec::encode_record;
use crate::record::no_backslash;
use crate::record::Status;
use crate::record::TodoError;
use crate::record::TodoItem;

verus! {

/// The ordered record sequence of one command invocation: reloaded fresh
/// from the persisted lines at the start, rewritten in full after a
/// mutation.
pub struct Store {
    pub records: Vec<TodoItem>,
}

/// Persistence round trip: decoding the lines the store writes yields the
/// same records back, as long as every record's text and timestamp are free
/// of the delimiter token.
pub proof fn lemma_lines_round_trip(s: Seq<TodoItem>)
    requires
        forall|i: int| 0 <= i < s.len() ==> crate::codec::wf_record((#[trigger] s[i])@),
    ensures
        forall|i: int|
            0 <= i < s.len() ==> decode_model(encode_model((#[trigger] s[i])@)) == Some(s[i]@),
{
    assert forall|i: int| 0 <= i < s.len() implies decode_model(encode_model((#[trigger] s[i])@))
        == Some(s[i]@) by {
        crate::codec::lemma_decode_encode(s[i]@);
    }
}

impl Store {
    /// A store with no records, as read from a genuinely empty file.
    pub fn empty() -> (s: Store)
        ensures
            s.records@ =~= Seq::<TodoItem>::empty(),
    {
        Store { records: Vec::new() }
    }

    /// Load: decode every persisted line, in file order. Any line that does
    /// not decode makes the whole load fail with `MalformedRecord`.
    pub fn from_lines(lines: &Vec<String>) -> (r: Result<Store, TodoError>)
        ensures
            match r {
                Ok(s) => {
                    &&& s.records@.len() == lines@.len()
                    &&& forall|i: int|
                        0 <= i < lines@.len() ==> decode_model(lines@[i]@) == Some(
                            #[trigger] s.records@[i]@,
                        )
                },
                Err(e) => {
                    &&& e == TodoError::MalformedRecord
                    &&& exists|i: int|
                        0 <= i < lines@.len() && decode_model(#[trigger] lines@[i]@) is None
                },
            },
    {
        let mut records: Vec<TodoItem> = Vec::new();
        let n = lines.len();
        let mut k: usize = 0;
        while k < n
            invariant
                n == lines@.len(),
                k <= n,
                records@.len() == k,
                forall|i: int|
                    0 <= i < k ==> decode_model(lines@[i]@) == Some(#[trigger] records@[i]@),
            decreases n - k,
        {
            match decode_line(lines[k].as_str()) {
                Ok(rec) => records.push(rec),
                Err(_) => {
                    return Err(TodoError::MalformedRecord);
                },
            }
            k = k + 1;
        }
        Ok(Store { records })
    }

    /// The lines to persist: every record re-encoded, in sequence order.
    pub fn to_lines(&self) -> (out: Vec<String>)
        ensures
            out@.len() == self.records@.len(),
            forall|i: int|
                0 <= i < self.records@.len() ==> (#[trigger] out@[i])@ == encode_model(
                    self.records@[i]@,
                ),
    {
        let mut out: Vec<String> = Vec::new();
        let n = self.records.len();
        let mut k: usize = 0;
        while k < n
            invariant
                n == self.records@.len(),
                k <= n,
                out@.len() == k,
                forall|i: int|
                    0 <= i < k ==> (#[trigger] out@[i])@ == encode_model(self.records@[i]@),
            decreases n - k,
        {
            out.push(encode_record(&self.records[k]));
            k = k + 1;
        }
        out
    }

    /// Add: append a fresh record with the given text, status `TODO`, and
    /// the current timestamp. Every existing record keeps its position.
    pub fn add(&mut self, text: String)
        ensures
            final(self).records@.len() == old(self).records@.len() + 1,
            forall|i: int|
                0 <= i < old(self).records@.len()
                    ==> final(self).records@[i] == old(self).records@[i],
            final(self).records@.last().item == text,
            final(self).records@.last().status == Status::TODO,
            no_backslash(final(self).records@.last().time@),
    {
        let rec = TodoItem::new(text);
        self.records.push(rec);
    }

    /// Complete: set the status of the record at position `id` (1-based) to
    /// `DONE`, leaving its text and timestamp — and every other record —
    /// unchanged. Fails with `InvalidId`, and changes nothing, exactly when
    /// `id` is outside `[1, len]`.
    pub fn complete(&mut self, id: usize) -> (r: Result<(), TodoError>)
        ensures
            r is Ok <==> 1 <= id <= old(self).records@.len(),
            match r {
                Ok(()) => {
                    &&& final(self).records@.len() == old(self).records@.len()
                    &&& forall|i: int|
                        0 <= i < old(self).records@.len() && i != id - 1
                            ==> final(self).records@[i] == old(self).records@[i]
                    &&& final(self).records@[id - 1].status == Status::DONE
                    &&& final(self).records@[id - 1].item == old(self).records@[id - 1].item
                    &&& final(self).records@[id - 1].time == old(self).records@[id - 1].time
                },
                Err(e) => e == TodoError::InvalidId && *final(self) == *old(self),
            },
    {
        if id == 0 || id > self.records.len() {
            return Err(TodoError::InvalidId);
        }
        let idx = id - 1;
        let done = TodoItem {
            item: self.records[idx].item.clone(),
            status: Status::DONE,
            time: self.records[idx].time.clone(),
        };
        self.records.set(idx, done);
        Ok(())
    }

    /// Remove: delete the record at position `id` (1-based); every later
    /// record shifts one position down. Fails with `InvalidId`, and changes
    /// nothing, exactly when `id` is outside `[1, len]`.
    pub fn remove(&mut self, id: usize) -> (r: Result<(), TodoError>)
        ensures
            r is Ok <==> 1 <= id <= old(self).records@.len(),
            match r {
                Ok(()) => final(self).records@ == old(self).records@.remove(id - 1),
                Err(e) => e == TodoError::InvalidId && *final(self) == *old(self),
            },
    {
        if id == 0 || id > self.records.len() {
            return Err(TodoError::InvalidId);
        }
        self.records.remove(id - 1);
        Ok(())
    }
}

} // verus!
