//! The record codec: one task record to and from one line of text.
//!
//! A line is `text \t status \t timestamp \r` where the delimiter is the
//! literal three-character token backslash-t-space and the trailing marker is
//! the literal two-character token backslash-r (textual artifacts of the
//! format, not control characters).

use vstd::prelude::*;
use crate::record::RecordModel;
use crate::record::Status;
use crate::record::TodoError;
use crate::record::TodoItem;

verus! {

/// The field delimiter: the three characters backslash, `t`, space.
pub open spec fn delim() -> Seq<char> {
    seq!['\\', 't', ' ']
}

/// The trailing marker: the two characters backslash, `r`.
pub open spec fn marker() -> Seq<char> {
    seq!['\\', 'r']
}

/// True when an occurrence of the field delimiter starts at index `i` of `s`.
pub open spec fn delim_at(s: Seq<char>, i: int) -> bool {
    &&& 0 <= i
    &&& i + 3 <= s.len()
    &&& s[i] == '\\'
    &&& s[i + 1] == 't'
    &&& s[i + 2] == ' '
}

/// True when `s` contains no occurrence of the field delimiter; only such
/// text survives a round trip through the line format unchanged.
pub open spec fn clean(s: Seq<char>) -> bool {
    forall|i: int| !delim_at(s, i)
}

/// A record whose text fields are free of the delimiter token.
pub open spec fn wf_record(r: RecordModel) -> bool {
    clean(r.item) && clean(r.time)
}

/// The status tokens of the line format.
pub open spec fn status_token(st: Status) -> Seq<char> {
    match st {
        Status::TODO => seq!['T', 'O', 'D', 'O'],
        Status::DONE => seq!['D', 'O', 'N', 'E'],
    }
}

/// What encoding a record produces: the three fields joined by the delimiter,
/// with the trailing marker appended.
pub open spec fn encode_model(r: RecordModel) -> Seq<char> {
    r.item + delim() + status_token(r.status) + delim() + r.time + marker()
}

/// True when `s` ends with the trailing marker.
pub open spec fn ends_with_marker(s: Seq<char>) -> bool {
    s.len() >= 2 && s[s.len() - 2] == '\\' && s[s.len() - 1] == 'r'
}

/// `s` without its trailing marker, if it carries one (decoding tolerates a
/// missing marker).
pub open spec fn strip_marker(s: Seq<char>) -> Seq<char> {
    if ends_with_marker(s) {
        s.take(s.len() - 2)
    } else {
        s
    }
}

/// The index of the first delimiter occurrence in `s`, if any.
pub open spec fn spec_find_delim(s: Seq<char>) -> Option<int>
    decreases s.len(),
{
    if delim_at(s, 0) {
        Some(0)
    } else if s.len() == 0 {
        None
    } else {
        match spec_find_delim(s.drop_first()) {
            Some(i) => Some(i + 1),
            None => None,
        }
    }
}

/// The stripped line split at its first two delimiters into exactly three
/// fields; `None` when there are fewer than two delimiters or the third
/// field still contains one.
pub open spec fn split3(s: Seq<char>) -> Option<(Seq<char>, Seq<char>, Seq<char>)> {
    match spec_find_delim(s) {
        None => None,
        Some(i) => {
            let t = s.take(i);
            let rest = s.skip(i + 3);
            match spec_find_delim(rest) {
                None => None,
                Some(j) => {
                    let tok = rest.take(j);
                    let c = rest.skip(j + 3);
                    if spec_find_delim(c) is Some {
                        None
                    } else {
                        Some((t, tok, c))
                    }
                },
            }
        },
    }
}

/// The status named by a token, if the token is one of the two literals.
pub open spec fn parse_status(tok: Seq<char>) -> Option<Status> {
    if tok == status_token(Status::TODO) {
        Some(Status::TODO)
    } else if tok == status_token(Status::DONE) {
        Some(Status::DONE)
    } else {
        None
    }
}

/// What decoding a line yields: the record read from the three fields of the
/// stripped line, or nothing when the line is malformed.
pub open spec fn decode_model(s: Seq<char>) -> Option<RecordModel> {
    match split3(strip_marker(s)) {
        None => None,
        Some((t, tok, c)) => match parse_status(tok) {
            None => None,
            Some(st) => Some(RecordModel { item: t, status: st, time: c }),
        },
    }
}

/// A well-formed persisted line: it decodes, and it carries the trailing
/// marker the encoder always writes.
pub open spec fn wf_line(s: Seq<char>) -> bool {
    decode_model(s) is Some && ends_with_marker(s)
}

/// The first delimiter found by `spec_find_delim` is a delimiter occurrence,
/// and no occurrence starts before it.
pub proof fn lemma_find_delim(s: Seq<char>)
    ensures
        match spec_find_delim(s) {
            Some(i) => delim_at(s, i) && forall|j: int| j < i ==> !delim_at(s, j),
            None => clean(s),
        },
    decreases s.len(),
{
    if delim_at(s, 0) {
    } else if s.len() == 0 {
    } else {
        lemma_find_delim(s.drop_first());
        let d = s.drop_first();
        assert forall|j: int| delim_at(s, j) && j != 0 implies delim_at(d, j - 1) by {
            assert(d[j - 1] == s[j] && d[j] == s[j + 1] && d[j + 1] == s[j + 2]);
        }
        match spec_find_delim(d) {
            Some(i) => {
                assert(s[i + 1] == d[i] && s[i + 2] == d[i + 1] && s[i + 3] == d[i + 2]);
                assert(delim_at(s, i + 1));
            },
            None => {},
        }
    }
}

/// A delimiter occurrence at `i` with none before it is exactly what
/// `spec_find_delim` returns.
pub proof fn lemma_find_delim_unique(s: Seq<char>, i: int)
    requires
        delim_at(s, i),
        forall|j: int| j < i ==> !delim_at(s, j),
    ensures
        spec_find_delim(s) == Some(i),
{
    lemma_find_delim(s);
    match spec_find_delim(s) {
        Some(k) => {
            if k < i {
                assert(!delim_at(s, k));
            }
            if i < k {
                assert(!delim_at(s, i));
            }
        },
        None => {
            assert(!delim_at(s, i));
        },
    }
}

/// The `TODO` / `DONE` token of a status, as a string slice.
pub fn status_str(st: Status) -> (r: &'static str)
    ensures
        r@ == status_token(st),
{
    proof {
        reveal_strlit("TODO");
        reveal_strlit("DONE");
        assert("TODO"@ =~= status_token(Status::TODO));
        assert("DONE"@ =~= status_token(Status::DONE));
    }
    match st {
        Status::TODO => "TODO",
        Status::DONE => "DONE",
    }
}

/// Encode one record as one line: fields joined by the delimiter, the
/// trailing marker appended.
pub fn encode_record(rec: &TodoItem) -> (line: String)
    ensures
        line@ == encode_model(rec@),
{
    proof {
        reveal_strlit("\\t ");
        reveal_strlit("\\r");
        assert("\\t "@ =~= delim());
        assert("\\r"@ =~= marker());
    }
    let mut line = String::new();
    line.append(rec.item.as_str());
    line.append("\\t ");
    line.append(status_str(rec.status));
    line.append("\\t ");
    line.append(rec.time.as_str());
    line.append("\\r");
    proof {
        assert(line@ =~= encode_model(rec@));
    }
    line
}

/// The index of the first delimiter occurrence in `line`, if any.
fn find_delim(line: &str) -> (r: Option<usize>)
    ensures
        match r {
            Some(i) => spec_find_delim(line@) == Some(i as int),
            None => spec_find_delim(line@) is None,
        },
{
    let n = line.unicode_len();
    if n < 3 {
        proof {
            lemma_find_delim(line@);
            match spec_find_delim(line@) {
                Some(i) => assert(delim_at(line@, i)),
                None => {},
            }
        }
        return None;
    }
    let mut i: usize = 0;
    while i <= n - 3
        invariant
            n == line@.len(),
            3 <= n,
            i <= n - 2,
            forall|j: int| 0 <= j < i ==> !delim_at(line@, j),
        decreases n - i,
    {
        if line.get_char(i) == '\\' && line.get_char(i + 1) == 't' && line.get_char(i + 2) == ' '
        {
            proof {
                lemma_find_delim_unique(line@, i as int);
            }
            return Some(i);
        }
        i = i + 1;
    }
    proof {
        assert forall|j: int| !delim_at(line@, j) by {
            if 0 <= j && j + 3 <= n {
                assert(j < i);
            }
        }
        lemma_find_delim(line@);
        match spec_find_delim(line@) {
            Some(k) => assert(!delim_at(line@, k)),
            None => {},
        }
    }
    None
}

/// True when the two strings hold the same characters.
fn str_eq(a: &str, b: &str) -> (r: bool)
    ensures
        r == (a@ == b@),
{
    let na = a.unicode_len();
    let nb = b.unicode_len();
    if na != nb {
        return false;
    }
    let mut i: usize = 0;
    while i < na
        invariant
            na == a@.len(),
            na == b@.len(),
            i <= na,
            forall|j: int| 0 <= j < i ==> a@[j] == b@[j],
        decreases na - i,
    {
        if a.get_char(i) != b.get_char(i) {
            return false;
        }
        i = i + 1;
    }
    proof {
        assert(a@ =~= b@);
    }
    true
}

/// The status named by a token, if it is one of the two literals.
fn status_of_token(tok: &str) -> (r: Option<Status>)
    ensures
        r == parse_status(tok@),
{
    proof {
        reveal_strlit("TODO");
        reveal_strlit("DONE");
        assert("TODO"@ =~= status_token(Status::TODO));
        assert("DONE"@ =~= status_token(Status::DONE));
    }
    if str_eq(tok, "TODO") {
        Some(Status::TODO)
    } else if str_eq(tok, "DONE") {
        Some(Status::DONE)
    } else {
        None
    }
}

/// Decode one persisted line into a record: strip the trailing marker, split
/// on the field delimiter into exactly three fields, and parse the status
/// token. Any other shape is a malformed record.
pub fn decode_line(line: &str) -> (r: Result<TodoItem, TodoError>)
    ensures
        match r {
            Ok(rec) => decode_model(line@) == Some(rec@),
            Err(e) => decode_model(line@) is None && e == TodoError::MalformedRecord,
        },
{
    let n = line.unicode_len();
    let body: &str = if n >= 2 && line.get_char(n - 2) == '\\' && line.get_char(n - 1) == 'r' {
        let b = line.substring_char(0, n - 2);
        proof {
            assert(b@ =~= strip_marker(line@));
        }
        b
    } else {
        proof {
            assert(line@ =~= strip_marker(line@));
        }
        line
    };
    let i = match find_delim(body) {
        Some(i) => i,
        None => {
            return Err(TodoError::MalformedRecord);
        },
    };
    proof {
        lemma_find_delim(body@);
    }
    let bn = body.unicode_len();
    let text = body.substring_char(0, i);
    let rest = body.substring_char(i + 3, bn);
    proof {
        assert(text@ =~= body@.take(i as int));
        assert(rest@ =~= body@.skip(i as int + 3));
    }
    let j = match find_delim(rest) {
        Some(j) => j,
        None => {
            return Err(TodoError::MalformedRecord);
        },
    };
    proof {
        lemma_find_delim(rest@);
    }
    let rn = rest.unicode_len();
    let tok = rest.substring_char(0, j);
    let time = rest.substring_char(j + 3, rn);
    proof {
        assert(tok@ =~= rest@.take(j as int));
        assert(time@ =~= rest@.skip(j as int + 3));
    }
    if find_delim(time).is_some() {
        return Err(TodoError::MalformedRecord);
    }
    match status_of_token(tok) {
        Some(st) => {
            let rec = TodoItem { item: String::from_str(text), status: st, time: String::from_str(
                time,
            ) };
            proof {
                assert(decode_model(line@) == Some(rec@));
            }
            Ok(rec)
        },
        None => Err(TodoError::MalformedRecord),
    }
}

/// Backslash-free text — a timestamp the clock hands out, say — can never
/// contain the delimiter token, whose first character is a backslash.
pub proof fn lemma_no_backslash_clean(s: Seq<char>)
    requires
        crate::record::no_backslash(s),
    ensures
        clean(s),
{
}

/// Text that is free of the delimiter token has no first delimiter.
pub proof fn lemma_clean_no_delim(s: Seq<char>)
    requires
        clean(s),
    ensures
        spec_find_delim(s) is None,
{
    lemma_find_delim(s);
    match spec_find_delim(s) {
        Some(i) => {
            assert(!delim_at(s, i));
        },
        None => {},
    }
}

/// In `t + delim() + rest` with `t` free of the delimiter, the first
/// delimiter occurrence is exactly the one at the end of `t`: none can start
/// inside `t`, and none can start astride the boundary, because the two
/// characters after a backslash of `t` would have to be `t` and space but
/// are in fact followed by the delimiter's own backslash.
pub proof fn lemma_first_delim_at_boundary(t: Seq<char>, rest: Seq<char>)
    requires
        clean(t),
    ensures
        spec_find_delim(t + delim() + rest) == Some(t.len() as int),
{
    let s = t + delim() + rest;
    let n = t.len() as int;
    assert(s[n] == '\\' && s[n + 1] == 't' && s[n + 2] == ' ');
    assert(delim_at(s, n));
    assert forall|j: int| j < n implies !delim_at(s, j) by {
        if 0 <= j && j + 3 <= s.len() {
            if j + 3 <= n {
                if delim_at(s, j) {
                    assert(t[j] == '\\' && t[j + 1] == 't' && t[j + 2] == ' ');
                    assert(delim_at(t, j));
                }
            } else if j == n - 2 {
                assert(s[j + 2] == '\\');
            } else if j == n - 1 {
                assert(s[j + 2] == 't');
            }
        }
    }
    lemma_find_delim_unique(s, n);
}

/// The status tokens contain no backslash, hence no delimiter.
pub proof fn lemma_token_clean(st: Status)
    ensures
        clean(status_token(st)),
{
    let tok = status_token(st);
    assert forall|i: int| !delim_at(tok, i) by {
        if 0 <= i && i + 3 <= tok.len() {
            assert(tok[i] != '\\');
        }
    }
}

/// Round trip, record first: decoding the encoding of any record whose text
/// and timestamp are free of the delimiter token yields that record back.
pub proof fn lemma_decode_encode(m: RecordModel)
    requires
        wf_record(m),
    ensures
        decode_model(encode_model(m)) == Some(m),
{
    let s = encode_model(m);
    let tok = status_token(m.status);
    let rest1 = tok + delim() + m.time;
    let body = m.item + delim() + rest1;
    assert(s =~= body + marker());
    assert(ends_with_marker(s));
    assert(strip_marker(s) =~= body);
    lemma_first_delim_at_boundary(m.item, rest1);
    let i = m.item.len() as int;
    assert(body.take(i) =~= m.item);
    assert(body.skip(i + 3) =~= rest1);
    lemma_token_clean(m.status);
    lemma_first_delim_at_boundary(tok, m.time);
    assert(rest1.take(tok.len() as int) =~= tok);
    assert(rest1.skip(tok.len() as int + 3) =~= m.time);
    lemma_clean_no_delim(m.time);
    assert(parse_status(tok) == Some(m.status));
    assert(decode_model(s)->Some_0 =~= m);
}

/// Round trip, line first: re-encoding the record decoded from a well-formed
/// line reproduces the line, and the decoded record is itself free of the
/// delimiter token in both text fields.
pub proof fn lemma_encode_decode(s: Seq<char>, m: RecordModel)
    requires
        decode_model(s) == Some(m),
        ends_with_marker(s),
    ensures
        encode_model(m) == s,
        wf_record(m),
{
    let b = strip_marker(s);
    assert(s =~= b + marker());
    let i = spec_find_delim(b)->Some_0;
    lemma_find_delim(b);
    let t = b.take(i);
    let rest = b.skip(i + 3);
    assert(b =~= t + delim() + rest);
    let j = spec_find_delim(rest)->Some_0;
    lemma_find_delim(rest);
    let tok = rest.take(j);
    let c = rest.skip(j + 3);
    assert(rest =~= tok + delim() + c);
    assert(tok == status_token(m.status));
    assert(encode_model(m) =~= s);
    assert forall|k: int| !delim_at(t, k) by {
        if 0 <= k && k + 3 <= t.len() {
            if delim_at(t, k) {
                assert(b[k] == '\\' && b[k + 1] == 't' && b[k + 2] == ' ');
                assert(delim_at(b, k));
            }
        }
    }
    lemma_find_delim(c);
}

} // verus!
