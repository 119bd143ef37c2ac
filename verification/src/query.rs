//! The query engine: the filtered or sorted view of the record sequence that
//! a listing displays. Each row carries the record's positional ID, computed
//! before filtering or sorting, so retained records keep the ID they had in
//! file order.

use vstd::prelude::*;
use crate::record::Status;
use crate::record::TodoItem;
use crate::store::Store;

verus! {

/// The two timestamp orderings of a listing.
#[allow(non_camel_case_types)]
#[derive(Clone, Copy, Debug, PartialEq, Eq, Structural)]
pub enum Order {
    DESCTIME,
    ASCTIME,
}

/// The single optional listing modifier: keep one status, or re-sort by
/// timestamp. Status filtering and ordering are mutually exclusive.
#[derive(Clone, Copy, Debug)]
pub enum Filter {
    Status(Status),
    Order(Order),
}

/// One display row: a record together with its positional ID.
#[derive(Debug)]
pub struct Row {
    pub id: usize,
    pub item: TodoItem,
}

impl Clone for Row {
    fn clone(&self) -> (r: Self)
        ensures
            r == *self,
    {
        Row { id: self.id, item: self.item.clone() }
    }
}

/// The rows of a record sequence in file order: record `i` under the
/// 1-based positional ID `i + 1`.
pub open spec fn rows_of(s: Seq<TodoItem>) -> Seq<Row> {
    Seq::new(s.len(), |i: int| Row { id: (i + 1) as usize, item: s[i] })
}

/// The predicate a status filter retains rows by.
pub open spec fn status_pred(st: Status) -> spec_fn(Row) -> bool {
    |r: Row| r.item.status == st
}

/// Lexicographic order on character sequences: the order the timestamp
/// strings of the line format sort in.
pub open spec fn chars_le(a: Seq<char>, b: Seq<char>) -> bool
    decreases a.len(),
{
    if a.len() == 0 {
        true
    } else if b.len() == 0 {
        false
    } else if a[0] != b[0] {
        a[0] < b[0]
    } else {
        chars_le(a.drop_first(), b.drop_first())
    }
}

/// The sort key order between two rows: ascending or descending by the
/// record's timestamp string.
pub open spec fn time_le(asc: bool, a: Row, b: Row) -> bool {
    if asc {
        chars_le(a.item.time@, b.item.time@)
    } else {
        chars_le(b.item.time@, a.item.time@)
    }
}

/// Stable insertion of a row into a sorted row sequence: the new row goes
/// after every row whose key precedes or equals its own.
pub open spec fn spec_insert(asc: bool, x: Row, s: Seq<Row>) -> Seq<Row>
    decreases s.len(),
{
    if s.len() == 0 {
        seq![x]
    } else if time_le(asc, s.last(), x) {
        s.push(x)
    } else {
        spec_insert(asc, x, s.drop_last()).push(s.last())
    }
}

/// Stable insertion sort of the rows by timestamp.
pub open spec fn spec_sort(asc: bool, s: Seq<Row>) -> Seq<Row>
    decreases s.len(),
{
    if s.len() == 0 {
        s
    } else {
        spec_insert(asc, s.last(), spec_sort(asc, s.drop_last()))
    }
}

/// The view a listing displays: rows in file order; or only the rows of one
/// status, in file order; or all rows re-sorted by timestamp. Positional IDs
/// travel with their rows and are never recomputed.
pub open spec fn view_spec(s: Seq<TodoItem>, f: Option<Filter>) -> Seq<Row> {
    match f {
        None => rows_of(s),
        Some(Filter::Status(st)) => rows_of(s).filter(status_pred(st)),
        Some(Filter::Order(Order::ASCTIME)) => spec_sort(true, rows_of(s)),
        Some(Filter::Order(Order::DESCTIME)) => spec_sort(false, rows_of(s)),
    }
}

/// Lexicographic order is reflexive.
pub proof fn lemma_chars_le_refl(a: Seq<char>)
    ensures
        chars_le(a, a),
    decreases a.len(),
{
    if a.len() > 0 {
        lemma_chars_le_refl(a.drop_first());
    }
}

/// Lexicographic order is total.
pub proof fn lemma_chars_le_total(a: Seq<char>, b: Seq<char>)
    ensures
        chars_le(a, b) || chars_le(b, a),
    decreases a.len(),
{
    if a.len() == 0 || b.len() == 0 {
    } else if a[0] != b[0] {
    } else {
        lemma_chars_le_total(a.drop_first(), b.drop_first());
    }
}

/// Lexicographic order is transitive.
pub proof fn lemma_chars_le_trans(a: Seq<char>, b: Seq<char>, c: Seq<char>)
    requires
        chars_le(a, b),
        chars_le(b, c),
    ensures
        chars_le(a, c),
    decreases a.len(),
{
    if a.len() == 0 {
    } else {
        if a[0] == b[0] && b[0] == c[0] {
            lemma_chars_le_trans(a.drop_first(), b.drop_first(), c.drop_first());
        }
    }
}

/// The key order between rows is total.
pub proof fn lemma_time_le_total(asc: bool, a: Row, b: Row)
    ensures
        time_le(asc, a, b) || time_le(asc, b, a),
{
    lemma_chars_le_total(a.item.time@, b.item.time@);
    lemma_chars_le_total(b.item.time@, a.item.time@);
}

/// The key order between rows is transitive.
pub proof fn lemma_time_le_trans(asc: bool, a: Row, b: Row, c: Row)
    requires
        time_le(asc, a, b),
        time_le(asc, b, c),
    ensures
        time_le(asc, a, c),
{
    if asc {
        lemma_chars_le_trans(a.item.time@, b.item.time@, c.item.time@);
    } else {
        lemma_chars_le_trans(c.item.time@, b.item.time@, a.item.time@);
    }
}

/// True when the rows are in key order.
pub open spec fn sorted_by_time(asc: bool, s: Seq<Row>) -> bool {
    forall|i: int, j: int| 0 <= i < j < s.len() ==> time_le(asc, #[trigger] s[i], #[trigger] s[j])
}

/// True when rows carrying equal timestamps appear in the order of their
/// positional IDs: the original relative order, for rows taken from a
/// listing.
pub open spec fn stable_order(s: Seq<Row>) -> bool {
    forall|i: int, j: int|
        0 <= i < j < s.len() && (#[trigger] s[i]).item.time@ == (#[trigger] s[j]).item.time@
            ==> s[i].id < s[j].id
}

/// True when positional IDs strictly increase along the rows, as they do in
/// a freshly listed view.
pub open spec fn ids_increasing(s: Seq<Row>) -> bool {
    forall|i: int, j: int| 0 <= i < j < s.len() ==> (#[trigger] s[i]).id < (#[trigger] s[j]).id
}

/// Insertion adds one row; every row of the result is the inserted row or
/// one of the originals.
proof fn lemma_insert_elems(asc: bool, x: Row, s: Seq<Row>)
    ensures
        spec_insert(asc, x, s).len() == s.len() + 1,
        forall|i: int|
            0 <= i < spec_insert(asc, x, s).len() ==> (#[trigger] spec_insert(asc, x, s)[i] == x
                || s.contains(spec_insert(asc, x, s)[i])),
    decreases s.len(),
{
    let out = spec_insert(asc, x, s);
    if s.len() == 0 {
    } else if time_le(asc, s.last(), x) {
        assert forall|i: int| 0 <= i < out.len() implies (out[i] == x || s.contains(out[i])) by {
            if i < s.len() {
                assert(s[i] == out[i]);
            }
        }
    } else {
        lemma_insert_elems(asc, x, s.drop_last());
        let v = spec_insert(asc, x, s.drop_last());
        assert forall|i: int| 0 <= i < out.len() implies (out[i] == x || s.contains(out[i])) by {
            if i < v.len() {
                assert(out[i] == v[i]);
                if v[i] != x {
                    let k = choose|k: int|
                        0 <= k < s.drop_last().len() && s.drop_last()[k] == v[i];
                    assert(s[k] == v[i]);
                }
            } else {
                assert(out[i] == s.last());
                assert(s[s.len() - 1] == s.last());
            }
        }
    }
}

/// Inserting into a sorted row sequence keeps it sorted.
proof fn lemma_insert_sorted(asc: bool, x: Row, s: Seq<Row>)
    requires
        sorted_by_time(asc, s),
    ensures
        sorted_by_time(asc, spec_insert(asc, x, s)),
    decreases s.len(),
{
    let out = spec_insert(asc, x, s);
    if s.len() == 0 {
    } else if time_le(asc, s.last(), x) {
        assert forall|i: int, j: int| 0 <= i < j < out.len() implies time_le(
            asc,
            out[i],
            out[j],
        ) by {
            if j < s.len() {
            } else {
                assert(out[j] == x);
                if i < s.len() - 1 {
                    assert(time_le(asc, s[i], s[s.len() - 1]));
                    lemma_time_le_trans(asc, s[i], s.last(), x);
                }
            }
        }
    } else {
        lemma_insert_sorted(asc, x, s.drop_last());
        lemma_insert_elems(asc, x, s.drop_last());
        let v = spec_insert(asc, x, s.drop_last());
        assert forall|i: int, j: int| 0 <= i < j < out.len() implies time_le(
            asc,
            out[i],
            out[j],
        ) by {
            if j < v.len() {
                assert(out[i] == v[i] && out[j] == v[j]);
            } else {
                assert(out[j] == s.last());
                assert(out[i] == v[i]);
                if v[i] == x {
                    lemma_time_le_total(asc, s.last(), x);
                } else {
                    let k = choose|k: int|
                        0 <= k < s.drop_last().len() && s.drop_last()[k] == v[i];
                    assert(s[k] == v[i]);
                    assert(time_le(asc, s[k], s[s.len() - 1]));
                }
            }
        }
    }
}

/// Inserting a row whose ID exceeds every present ID keeps equal-timestamp
/// rows in ID order: rows it is placed after have keys at or before its own,
/// and rows it is placed before have strictly later keys.
proof fn lemma_insert_stable(asc: bool, x: Row, s: Seq<Row>)
    requires
        stable_order(s),
        forall|i: int| 0 <= i < s.len() ==> (#[trigger] s[i]).id < x.id,
    ensures
        stable_order(spec_insert(asc, x, s)),
    decreases s.len(),
{
    let out = spec_insert(asc, x, s);
    if s.len() == 0 {
    } else if time_le(asc, s.last(), x) {
        assert forall|i: int, j: int|
            0 <= i < j < out.len() && out[i].item.time@ == out[j].item.time@ implies out[i].id
            < out[j].id by {
            if j < s.len() {
            } else {
                assert(out[i] == s[i]);
            }
        }
    } else {
        lemma_insert_stable(asc, x, s.drop_last());
        lemma_insert_elems(asc, x, s.drop_last());
        let v = spec_insert(asc, x, s.drop_last());
        assert forall|i: int, j: int|
            0 <= i < j < out.len() && out[i].item.time@ == out[j].item.time@ implies out[i].id
            < out[j].id by {
            if j < v.len() {
                assert(out[i] == v[i] && out[j] == v[j]);
            } else {
                assert(out[j] == s.last());
                assert(out[i] == v[i]);
                if v[i] == x {
                    lemma_chars_le_refl(x.item.time@);
                    assert(time_le(asc, s.last(), x));
                } else {
                    let k = choose|k: int|
                        0 <= k < s.drop_last().len() && s.drop_last()[k] == v[i];
                    assert(s[k] == v[i]);
                    assert(s[s.len() - 1] == s.last());
                }
            }
        }
    }
}

/// The sort keeps the length, and every row of the result is a row of the
/// input.
pub proof fn lemma_sort_elems(asc: bool, s: Seq<Row>)
    ensures
        spec_sort(asc, s).len() == s.len(),
        forall|i: int|
            0 <= i < spec_sort(asc, s).len() ==> s.contains(#[trigger] spec_sort(asc, s)[i]),
    decreases s.len(),
{
    let out = spec_sort(asc, s);
    if s.len() == 0 {
    } else {
        lemma_sort_elems(asc, s.drop_last());
        let v = spec_sort(asc, s.drop_last());
        lemma_insert_elems(asc, s.last(), v);
        assert forall|i: int| 0 <= i < out.len() implies s.contains(out[i]) by {
            if out[i] == s.last() {
                assert(s[s.len() - 1] == s.last());
            } else {
                assert(v.contains(out[i]));
                let k = choose|k: int| 0 <= k < v.len() && v[k] == out[i];
                let m = choose|m: int| 0 <= m < s.drop_last().len() && s.drop_last()[m] == v[k];
                assert(s[m] == out[i]);
            }
        }
    }
}

/// The sorted view is a permutation of its input rows.
pub proof fn lemma_sort_permutes(asc: bool, s: Seq<Row>)
    ensures
        spec_sort(asc, s).to_multiset() == s.to_multiset(),
    decreases s.len(),
{
    if s.len() == 0 {
    } else {
        lemma_sort_permutes(asc, s.drop_last());
        let v = spec_sort(asc, s.drop_last());
        lemma_insert_multiset(asc, s.last(), v);
        s.drop_last().to_multiset_ensures();
        assert(s.drop_last().push(s.last()) =~= s);
        assert(s.to_multiset() =~= v.to_multiset().insert(s.last()));
    }
}

/// Insertion adds exactly the inserted row to the multiset of rows.
proof fn lemma_insert_multiset(asc: bool, x: Row, s: Seq<Row>)
    ensures
        spec_insert(asc, x, s).to_multiset() == s.to_multiset().insert(x),
    decreases s.len(),
{
    if s.len() == 0 {
        s.to_multiset_ensures();
        assert(s.push(x) =~= seq![x]);
        assert(s.push(x).to_multiset() =~= s.to_multiset().insert(x));
    } else if time_le(asc, s.last(), x) {
        s.to_multiset_ensures();
    } else {
        lemma_insert_multiset(asc, x, s.drop_last());
        let v = spec_insert(asc, x, s.drop_last());
        v.to_multiset_ensures();
        s.drop_last().to_multiset_ensures();
        assert(s.drop_last().push(s.last()) =~= s);
        assert(v.push(s.last()).to_multiset() =~= s.to_multiset().insert(x));
    }
}

/// Sort correctness: the sorted view is in key order — ascending is
/// non-decreasing by timestamp string, descending non-increasing.
pub proof fn lemma_sort_sorted(asc: bool, s: Seq<Row>)
    ensures
        sorted_by_time(asc, spec_sort(asc, s)),
    decreases s.len(),
{
    if s.len() > 0 {
        lemma_sort_sorted(asc, s.drop_last());
        lemma_insert_sorted(asc, s.last(), spec_sort(asc, s.drop_last()));
    }
}

/// Sort stability: when the input rows carry strictly increasing positional
/// IDs, rows with equal timestamps keep their original relative order in the
/// sorted view.
pub proof fn lemma_sort_stable(asc: bool, s: Seq<Row>)
    requires
        ids_increasing(s),
    ensures
        stable_order(spec_sort(asc, s)),
    decreases s.len(),
{
    if s.len() > 0 {
        lemma_sort_stable(asc, s.drop_last());
        let v = spec_sort(asc, s.drop_last());
        lemma_sort_elems(asc, s.drop_last());
        assert forall|i: int| 0 <= i < v.len() implies (#[trigger] v[i]).id < s.last().id by {
            let k = choose|k: int| 0 <= k < s.drop_last().len() && s.drop_last()[k] == v[i];
            assert(s[k] == v[i]);
            assert(s[s.len() - 1] == s.last());
        }
        lemma_insert_stable(asc, s.last(), v);
    }
}

/// The rows of a fresh listing carry strictly increasing IDs. The record
/// sequence of any store fits in a vector, so its length is bounded.
pub proof fn lemma_rows_ids_increasing(s: Seq<TodoItem>)
    requires
        s.len() <= usize::MAX,
    ensures
        ids_increasing(rows_of(s)),
{
    assert forall|i: int, j: int| 0 <= i < j < rows_of(s).len() implies (#[trigger] rows_of(s)[i]).id
        < (#[trigger] rows_of(s)[j]).id by {
        assert(rows_of(s)[i].id == i + 1);
        assert(rows_of(s)[j].id == j + 1);
    }
}

/// Appending a record never changes the row of any existing record: neither
/// its positional ID nor its contents.
pub proof fn lemma_append_preserves_ids(s: Seq<TodoItem>, x: TodoItem)
    ensures
        rows_of(s.push(x)).len() == s.len() + 1,
        forall|i: int| 0 <= i < s.len() ==> rows_of(s.push(x))[i] == rows_of(s)[i],
{
}

/// Removing the record at position `k` leaves every earlier row unchanged
/// and shifts the positional ID of every later record down by exactly one,
/// its contents untouched.
pub proof fn lemma_remove_shifts_ids(s: Seq<TodoItem>, k: int)
    requires
        0 <= k < s.len(),
        s.len() <= usize::MAX,
    ensures
        rows_of(s.remove(k)).len() == s.len() - 1,
        forall|i: int| 0 <= i < k ==> rows_of(s.remove(k))[i] == rows_of(s)[i],
        forall|i: int|
            k <= i < s.len() - 1 ==> (#[trigger] rows_of(s.remove(k))[i]).item == rows_of(
                s,
            )[i + 1].item,
        forall|i: int|
            k <= i < s.len() - 1 ==> (#[trigger] rows_of(s.remove(k))[i]).id + 1 == rows_of(
                s,
            )[i + 1].id,
{
    assert forall|i: int| k <= i < s.len() - 1 implies (#[trigger] rows_of(s.remove(k))[i]).item
        == rows_of(s)[i + 1].item && rows_of(s.remove(k))[i].id + 1 == rows_of(s)[i + 1].id by {
        assert(s.remove(k)[i] == s[i + 1]);
        assert(rows_of(s.remove(k))[i].id == i + 1);
        assert(rows_of(s)[i + 1].id == i + 2);
    }
}

/// A filter keeps the rows in their original relative order, and every row
/// it yields is one of the input rows.
proof fn lemma_filter_rows(rows: Seq<Row>, pred: spec_fn(Row) -> bool)
    requires
        ids_increasing(rows),
    ensures
        ids_increasing(rows.filter(pred)),
        forall|i: int|
            0 <= i < rows.filter(pred).len() ==> rows.contains(#[trigger] rows.filter(pred)[i]),
    decreases rows.len(),
{
    reveal(Seq::filter);
    if rows.len() > 0 {
        let dl = rows.drop_last();
        lemma_filter_rows(dl, pred);
        let f = rows.filter(pred);
        let fd = dl.filter(pred);
        assert(rows[rows.len() - 1] == rows.last());
        assert forall|i: int| 0 <= i < f.len() implies rows.contains(f[i]) by {
            if pred(rows.last()) && i == f.len() - 1 {
                assert(f[i] == rows.last());
            } else {
                assert(f[i] == fd[i]);
                assert(dl.contains(fd[i]));
                let k = choose|k: int| 0 <= k < dl.len() && dl[k] == fd[i];
                assert(rows[k] == f[i]);
            }
        }
        assert forall|i: int, j: int| 0 <= i < j < f.len() implies (#[trigger] f[i]).id
            < (#[trigger] f[j]).id by {
            if pred(rows.last()) && j == f.len() - 1 {
                assert(f[i] == fd[i]);
                assert(dl.contains(fd[i]));
                let k = choose|k: int| 0 <= k < dl.len() && dl[k] == fd[i];
                assert(rows[k] == f[i]);
                assert(rows[k].id < rows.last().id);
            } else {
                assert(f[i] == fd[i] && f[j] == fd[j]);
            }
        }
    }
}

/// Filter correctness: the status-filtered view holds exactly the rows whose
/// record carries that status — every yielded row matches and is an original
/// row under its original positional ID, every matching record's row is
/// yielded, and the original order is kept.
pub proof fn lemma_view_filter_correct(s: Seq<TodoItem>, st: Status)
    requires
        s.len() <= usize::MAX,
    ensures
        ({
            let v = view_spec(s, Some(Filter::Status(st)));
            &&& forall|i: int| 0 <= i < v.len() ==> (#[trigger] v[i]).item.status == st
            &&& forall|i: int|
                0 <= i < v.len() ==> 1 <= (#[trigger] v[i]).id <= s.len() && v[i].item == s[v[i].id
                    - 1]
            &&& forall|k: int|
                0 <= k < s.len() && (#[trigger] s[k]).status == st ==> v.contains(rows_of(s)[k])
            &&& ids_increasing(v)
        }),
{
    let rows = rows_of(s);
    let pred = status_pred(st);
    let v = rows.filter(pred);
    lemma_rows_ids_increasing(s);
    lemma_filter_rows(rows, pred);
    assert forall|i: int| 0 <= i < v.len() implies (#[trigger] v[i]).item.status == st by {
        rows.lemma_filter_pred(pred, i);
    }
    assert forall|i: int| 0 <= i < v.len() implies 1 <= (#[trigger] v[i]).id <= s.len()
        && v[i].item == s[v[i].id - 1] by {
        assert(rows.contains(v[i]));
        let k = choose|k: int| 0 <= k < rows.len() && rows[k] == v[i];
        assert(rows[k].id == k + 1);
        assert(rows[k].item == s[k]);
    }
    assert forall|k: int| 0 <= k < s.len() && (#[trigger] s[k]).status == st implies v.contains(
        rows_of(s)[k],
    ) by {
        assert(pred(rows[k]));
        rows.lemma_filter_contains(pred, k);
    }
}

/// Sort correctness for the ordered views: the view is in key order —
/// ascending is non-decreasing by timestamp string, descending
/// non-increasing — it is a permutation of the rows in file order, and rows
/// with equal timestamps keep their original relative order.
pub proof fn lemma_view_order_correct(s: Seq<TodoItem>, o: Order)
    requires
        s.len() <= usize::MAX,
    ensures
        ({
            let v = view_spec(s, Some(Filter::Order(o)));
            &&& sorted_by_time(o == Order::ASCTIME, v)
            &&& v.to_multiset() == rows_of(s).to_multiset()
            &&& stable_order(v)
        }),
{
    let asc = o == Order::ASCTIME;
    lemma_rows_ids_increasing(s);
    lemma_sort_sorted(asc, rows_of(s));
    lemma_sort_permutes(asc, rows_of(s));
    lemma_sort_stable(asc, rows_of(s));
}

/// Whether two rows' keys are in order, ascending or descending by the
/// timestamp string.
fn time_le_exec(asc: bool, a: &Row, b: &Row) -> (r: bool)
    ensures
        r == time_le(asc, *a, *b),
{
    if asc {
        str_le(a.item.time.as_str(), b.item.time.as_str())
    } else {
        str_le(b.item.time.as_str(), a.item.time.as_str())
    }
}

/// Whether `a` precedes or equals `b` in lexicographic character order.
fn str_le(a: &str, b: &str) -> (r: bool)
    ensures
        r == chars_le(a@, b@),
{
    let na = a.unicode_len();
    let nb = b.unicode_len();
    let mut i: usize = 0;
    proof {
        assert(a@.skip(0) =~= a@);
        assert(b@.skip(0) =~= b@);
    }
    loop
        invariant
            na == a@.len(),
            nb == b@.len(),
            i <= na,
            i <= nb,
            chars_le(a@, b@) == chars_le(a@.skip(i as int), b@.skip(i as int)),
        decreases na - i,
    {
        if i == na {
            proof {
                assert(a@.skip(i as int).len() == 0);
            }
            return true;
        }
        if i == nb {
            proof {
                assert(b@.skip(i as int).len() == 0 && a@.skip(i as int).len() > 0);
            }
            return false;
        }
        let ca = a.get_char(i);
        let cb = b.get_char(i);
        proof {
            assert(a@.skip(i as int)[0] == a@[i as int]);
            assert(b@.skip(i as int)[0] == b@[i as int]);
        }
        if ca != cb {
            return ca < cb;
        }
        proof {
            assert(a@.skip(i as int).drop_first() =~= a@.skip(i as int + 1));
            assert(b@.skip(i as int).drop_first() =~= b@.skip(i as int + 1));
        }
        i = i + 1;
    }
}

/// Stable insertion sort of the rows by timestamp: the executable engine
/// behind the ordered listings.
fn sort_rows(rows: &Vec<Row>, asc: bool) -> (out: Vec<Row>)
    ensures
        out@ == spec_sort(asc, rows@),
{
    let mut out: Vec<Row> = Vec::new();
    let n = rows.len();
    let mut k: usize = 0;
    while k < n
        invariant
            n == rows@.len(),
            k <= n,
            out@ == spec_sort(asc, rows@.take(k as int)),
            out@.len() == k,
        decreases n - k,
    {
        let x = rows[k].clone();
        let mut p: usize = out.len();
        while p > 0 && !time_le_exec(asc, &out[p - 1], &x)
            invariant
                p <= out@.len(),
                forall|j: int| p <= j < out@.len() ==> !time_le(asc, #[trigger] out@[j], x),
            decreases p,
        {
            p = p - 1;
        }
        proof {
            lemma_insert_at(asc, x, out@, p as int);
            assert(rows@.take(k as int + 1).drop_last() =~= rows@.take(k as int));
            assert(rows@.take(k as int + 1).last() == rows@[k as int]);
        }
        out.insert(p, x);
        proof {
            assert(out@ =~= spec_sort(asc, rows@.take(k as int + 1)));
        }
        k = k + 1;
    }
    proof {
        assert(rows@.take(n as int) =~= rows@);
    }
    out
}

/// Where stable insertion places a row: splitting the sequence at the first
/// position from the right whose predecessor's key is at or before the new
/// row's key.
proof fn lemma_insert_at(asc: bool, x: Row, s: Seq<Row>, p: int)
    requires
        0 <= p <= s.len(),
        forall|j: int| p <= j < s.len() ==> !time_le(asc, #[trigger] s[j], x),
        p > 0 ==> time_le(asc, s[p - 1], x),
    ensures
        spec_insert(asc, x, s) == s.take(p) + seq![x] + s.skip(p),
    decreases s.len(),
{
    if p == s.len() {
        if s.len() == 0 {
            assert(spec_insert(asc, x, s) =~= s.take(p) + seq![x] + s.skip(p));
        } else {
            assert(s[p - 1] == s.last());
            assert(spec_insert(asc, x, s) == s.push(x));
            assert(s.push(x) =~= s.take(p) + seq![x] + s.skip(p));
        }
    } else {
        assert(s[s.len() - 1] == s.last());
        assert(!time_le(asc, s.last(), x));
        lemma_insert_at(asc, x, s.drop_last(), p);
        assert(s.drop_last().take(p) =~= s.take(p));
        assert(s.drop_last().skip(p).push(s.last()) =~= s.skip(p));
        assert(spec_insert(asc, x, s) =~= s.take(p) + seq![x] + s.skip(p));
    }
}

impl Store {
    /// All rows in file order: record `i` under positional ID `i + 1`.
    fn all_rows(&self) -> (out: Vec<Row>)
        ensures
            out@ == rows_of(self.records@),
    {
        let mut out: Vec<Row> = Vec::new();
        let n = self.records.len();
        let mut k: usize = 0;
        while k < n
            invariant
                n == self.records@.len(),
                k <= n,
                out@.len() == k,
                forall|i: int| 0 <= i < k ==> out@[i] == rows_of(self.records@)[i],
            decreases n - k,
        {
            out.push(Row { id: k + 1, item: self.records[k].clone() });
            k = k + 1;
        }
        proof {
            assert(out@ =~= rows_of(self.records@));
        }
        out
    }

    /// The view of the store under an optional listing modifier: all rows in
    /// file order; only the rows of one status, keeping file order and the
    /// IDs computed before filtering; or all rows stably re-sorted by
    /// timestamp, their IDs travelling with them.
    pub fn list_rows(&self, filter: &Option<Filter>) -> (out: Vec<Row>)
        ensures
            out@ == view_spec(self.records@, *filter),
    {
        match filter {
            None => self.all_rows(),
            Some(Filter::Status(st)) => {
                let mut out: Vec<Row> = Vec::new();
                let n = self.records.len();
                let mut k: usize = 0;
                while k < n
                    invariant
                        n == self.records@.len(),
                        k <= n,
                        out@ == rows_of(self.records@).take(k as int).filter(status_pred(*st)),
                    decreases n - k,
                {
                    proof {
                        let rows = rows_of(self.records@);
                        assert(rows.take(k as int + 1).drop_last() =~= rows.take(k as int));
                        assert(rows.take(k as int + 1) =~= rows.take(k as int).push(
                            rows[k as int],
                        ));
                        rows.take(k as int).lemma_filter_push(rows[k as int], status_pred(*st));
                    }
                    let rec = &self.records[k];
                    if rec.status == *st {
                        out.push(Row { id: k + 1, item: rec.clone() });
                    }
                    k = k + 1;
                }
                proof {
                    assert(rows_of(self.records@).take(n as int) =~= rows_of(self.records@));
                }
                out
            },
            Some(Filter::Order(o)) => {
                let rows = self.all_rows();
                let asc = match o {
                    Order::ASCTIME => true,
                    Order::DESCTIME => false,
                };
                sort_rows(&rows, asc)
            },
        }
    }
}

} // verus!
