//! The wall clock: a one-shot external service that hands the store a
//! formatted timestamp string for newly created records.

use vstd::prelude::*;
use crate::record::no_backslash;
use crate::record::TodoError;

verus! {

/// Relies on chrono's `Local::now` and `DateTime::format` with the layout
/// `%Y-%m-%d %H:%M:%S`: formatting the current local time never fails, and
/// the output is built only from decimal digits, `-`, `+`, ` `, and `:`, so
/// it never contains a backslash.
#[verifier::external_body]
pub fn get_time() -> (r: Result<String, TodoError>)
    ensures
        r is Ok,
        r matches Ok(t) ==> no_backslash(t@),
{
    Ok(chrono::Local::now().format("%Y-%m-%d %H:%M:%S").to_string())
}

} // verus!
