//! Cutting fields of the forms `head___tail` and `key=value`.

use crate::calendar::{add_months, months_later};
use crate::errors::SplitError;
use crate::text::{cut_at_first, occurs, split_once};
use vstd::prelude::*;
use vstd::string::*;

verus! {

/// Cuts `s` at its first `___`. Without one the whole of `s` is the head and
/// the tail is empty.
pub fn split___(s: &str) -> (parts: (&str, &str))
    ensures
        occurs(s@, "___"@) ==> cut_at_first(s@, "___"@, parts.0@, parts.1@),
        !occurs(s@, "___"@) ==> parts.0@ == s@ && parts.1@.len() == 0,
{
    proof {
        reveal_strlit("___");
        reveal_strlit("");
    }
    match split_once(s, "___") {
        Some(parts) => parts,
        None => (s, ""),
    }
}

/// Cuts `s` at its first `=` into key and value. A field without `=` is an
/// error that names the field.
pub fn split_eq(s: &str) -> (parts: Result<(&str, &str), SplitError>)
    ensures
        match parts {
            Ok((key, value)) => cut_at_first(s@, "="@, key@, value@),
            Err(error) => !occurs(s@, "="@) && error.field@ == s@ && error.reason@
                == "field should contain one `=` (key=value)"@,
        },
{
    proof {
        reveal_strlit("=");
    }
    match split_once(s, "=") {
        Some(parts) => Ok(parts),
        None => Err(
            SplitError {
                field: String::from_str(s),
                reason: String::from_str("field should contain one `=` (key=value)"),
            },
        ),
    }
}

/// The last millisecond before the moment one calendar month after `millis`.
/// Moments are in milliseconds since 1970-01-01T00:00:00 UTC.
pub fn end_of_month(millis: i64) -> (end: i64)
    requires
        months_later(millis as int, 1) is Some,
        months_later(millis as int, 1)->0 - 1 >= i64::MIN,
    ensures
        Some(end + 1) == months_later(millis as int, 1),
{
    match add_months(millis, 1) {
        Some(later) => later - 1,
        None => millis,
    }
}

/// The last millisecond before the moment one calendar month after `millis`,
/// or `None` where that month cannot be represented.
pub fn checked_end_of_month(millis: i64) -> (end: Option<i64>)
    ensures
        match end {
            Some(end) => Some(end + 1) == months_later(millis as int, 1),
            None => months_later(millis as int, 1) is None || months_later(millis as int, 1)
                == Some(i64::MIN as int),
        },
{
    match add_months(millis, 1) {
        Some(later) => if later > i64::MIN {
            Some(end_of_month(millis))
        } else {
            None
        },
        None => None,
    }
}

} // verus!
