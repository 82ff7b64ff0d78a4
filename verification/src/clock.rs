//! The wall clock, read through `chrono`.

use crate::text::{trimmed, white_space};
use vstd::prelude::*;

verus! {

/// Whether `c` is one of `'0'..='9'`.
pub open spec fn ascii_digit(c: char) -> bool {
    '0' <= c && c <= '9'
}

/// The format in which a new entry's time is written: year, month, day,
/// hour, minute and second, as `YYYY-MM-DD HH:MM:SS`.
pub const TIMESTAMP_FORMAT: &'static str = "%Y-%m-%d %H:%M:%S";

/// The shape of a time written in `TIMESTAMP_FORMAT`: a year, then
/// `-MM-DD HH:MM:SS`, each of the five a pair of digits. The year has
/// four digits; outside `0..=9999` it has a sign before at least four
/// digits.
pub open spec fn timestamp_shape(t: Seq<char>) -> bool {
    let y = t.len() - 15;
    &&& y >= 4
    &&& ascii_digit(t[0]) || t[0] == '+' || t[0] == '-'
    &&& forall|k: int| 1 <= k < y ==> ascii_digit(#[trigger] t[k])
    &&& t[y] == '-' && ascii_digit(t[y + 1]) && ascii_digit(t[y + 2])
    &&& t[y + 3] == '-' && ascii_digit(t[y + 4]) && ascii_digit(t[y + 5])
    &&& t[y + 6] == ' ' && ascii_digit(t[y + 7]) && ascii_digit(t[y + 8])
    &&& t[y + 9] == ':' && ascii_digit(t[y + 10]) && ascii_digit(t[y + 11])
    &&& t[y + 12] == ':' && ascii_digit(t[y + 13]) && ascii_digit(t[y + 14])
}

/// A time of the shape `timestamp_shape` can stand in a line as it is: it
/// holds neither `|` nor a line feed, and it neither begins nor ends
/// with white space.
pub proof fn lemma_timestamp_shape_is_plain(t: Seq<char>)
    requires
        timestamp_shape(t),
    ensures
        !t.contains('|'),
        !t.contains('\n'),
        trimmed(t) == t,
{
    let y = t.len() - 15;
    assert forall|k: int| 0 <= k < t.len() implies t[k] != '|' && t[k] != '\n' by {
        if 1 <= k < y {
            assert(ascii_digit(t[k]));
        }
    }
    assert(!white_space(t.first()));
    assert(!white_space(t.last())) by {
        assert(t.last() == t[y + 14]);
    }
}

/// Calls `chrono::Local::now` and writes the time it returns with
/// `DateTime::format`. Trusted: for `TIMESTAMP_FORMAT` the text has the
/// shape `timestamp_shape`. Which time it shows depends on the clock and
/// the time zone of the machine, so nothing more is said of it. `chrono`
/// panics where the machine's clock stands before 1970.
#[verifier::external_body]
pub(crate) fn local_time_text(format: &str) -> (text: String)
    requires
        format@ == TIMESTAMP_FORMAT@,
    ensures
        timestamp_shape(text@),
{
    chrono::Local::now().format(format).to_string()
}

} // verus!
