//! The entry codec: one log record and its one-line text form.
//!
//! A line is `timestamp|level|message`. The first two `|` of a line are
//! the separators; any further `|` belongs to the message. Each field is
//! stripped of surrounding white space when a line is read.

use crate::text::{
    index_of, lemma_index_of, lemma_index_of_unique, lemma_trimmed_len, to_chars, trim_range,
    trimmed,
};
use vstd::prelude::*;
use vstd::string::StringExecFns;
use vstd::string::StrSliceExecFns;

verus! {

/// The character between the fields of a line.
pub const SEPARATOR: char = '|';

/// One log event.
#[derive(Debug)]
pub struct LogEntry {
    pub timestamp: String,
    pub level: String,
    pub message: String,
}

/// The mathematical content of a `LogEntry`.
pub struct Record {
    pub timestamp: Seq<char>,
    pub level: Seq<char>,
    pub message: Seq<char>,
}

impl View for LogEntry {
    type V = Record;

    open spec fn view(&self) -> Record {
        Record { timestamp: self.timestamp@, level: self.level@, message: self.message@ }
    }
}

/// The contents of a sequence of entries.
pub open spec fn records(entries: Seq<LogEntry>) -> Seq<Record> {
    entries.map_values(|e: LogEntry| e@)
}

/// The record that a line stands for, or `None` where the line holds
/// fewer than two separators.
pub open spec fn parse_line(line: Seq<char>) -> Option<Record> {
    let i = index_of(line, SEPARATOR);
    if i >= line.len() {
        None
    } else {
        let rest = line.skip(i + 1);
        let j = index_of(rest, SEPARATOR);
        if j >= rest.len() {
            None
        } else {
            Some(
                Record {
                    timestamp: trimmed(line.take(i)),
                    level: trimmed(rest.take(j)),
                    message: trimmed(rest.skip(j + 1)),
                },
            )
        }
    }
}

/// The line that stands for a record.
pub open spec fn render_line(r: Record) -> Seq<char> {
    r.timestamp + seq![SEPARATOR] + r.level + seq![SEPARATOR] + r.message
}

/// `line` holds at least two separators.
pub open spec fn has_two_separators(line: Seq<char>) -> bool {
    exists|i: int, j: int|
        0 <= i < j < line.len() && #[trigger] line[i] == SEPARATOR && #[trigger] line[j]
            == SEPARATOR
}

/// A line parses exactly when it holds at least two separators.
pub proof fn lemma_parse_line_some(line: Seq<char>)
    ensures
        parse_line(line) is Some <==> has_two_separators(line),
{
    let sep = SEPARATOR;
    let i = index_of(line, sep);
    lemma_index_of(line, sep);
    let rest = line.skip(i + 1);
    if i < line.len() {
        let j = index_of(rest, sep);
        lemma_index_of(rest, sep);
        if j < rest.len() {
            assert(line[i] == sep && line[i + 1 + j] == sep);
        } else {
            if has_two_separators(line) {
                let (a, b) = choose|a: int, b: int|
                    0 <= a < b < line.len() && #[trigger] line[a] == sep && #[trigger] line[b]
                        == sep;
                assert(a >= i);
                assert(rest[b - i - 1] == sep);
            }
        }
    } else {
        if has_two_separators(line) {
            let (a, b) = choose|a: int, b: int|
                0 <= a < b < line.len() && #[trigger] line[a] == sep && #[trigger] line[b] == sep;
            assert(line[a] != sep);
        }
    }
}

/// A record is canonical when its timestamp and its level hold no
/// separator and none of its fields begins or ends with white space.
pub open spec fn canonical(r: Record) -> bool {
    &&& !r.timestamp.contains(SEPARATOR)
    &&& !r.level.contains(SEPARATOR)
    &&& trimmed(r.timestamp) == r.timestamp
    &&& trimmed(r.level) == r.level
    &&& trimmed(r.message) == r.message
}

/// Where the first separator of `head + [separator] + tail` stands.
proof fn lemma_first_separator_of_joined(head: Seq<char>, tail: Seq<char>)
    ensures
        index_of(head + seq![SEPARATOR] + tail, SEPARATOR) == index_of(head, SEPARATOR),
        0 <= index_of(head, SEPARATOR) <= head.len(),
        index_of(head, SEPARATOR) == head.len() <==> !head.contains(SEPARATOR),
{
    let sep = SEPARATOR;
    let p = index_of(head, sep);
    lemma_index_of(head, sep);
    lemma_index_of_unique(head + seq![sep] + tail, sep, p);
    if p < head.len() {
        assert(head[p] == sep);
    }
}

/// Reading the line of a record gives the record back exactly when the
/// record is canonical. The message may hold separators: whatever
/// follows the second separator of a line is the message.
pub proof fn lemma_line_round_trip(r: Record)
    ensures
        parse_line(render_line(r)) == Some(r) <==> canonical(r),
{
    let sep = SEPARATOR;
    let line = render_line(r);
    let tail = r.level + seq![sep] + r.message;
    assert(line =~= r.timestamp + seq![sep] + tail);
    lemma_first_separator_of_joined(r.timestamp, tail);
    let i = index_of(line, sep);
    lemma_trimmed_len(line.take(i));
    if i == r.timestamp.len() {
        let rest = line.skip(i + 1);
        assert(line.take(i) =~= r.timestamp);
        assert(rest =~= tail);
        lemma_first_separator_of_joined(r.level, r.message);
        let j = index_of(rest, sep);
        lemma_trimmed_len(rest.take(j));
        if j == r.level.len() {
            assert(rest.take(j) =~= r.level);
            assert(rest.skip(j + 1) =~= r.message);
        }
    }
}

impl Clone for LogEntry {
    fn clone(&self) -> (r: Self)
        ensures
            r@ == self@,
    {
        LogEntry {
            timestamp: self.timestamp.clone(),
            level: self.level.clone(),
            message: self.message.clone(),
        }
    }
}

/// The position of the first separator in `chars[from..]`, or
/// `chars.len()` where there is none.
fn find_separator(chars: &Vec<char>, from: usize) -> (r: usize)
    requires
        from <= chars.len(),
    ensures
        from <= r <= chars.len(),
        r - from == index_of(chars@.skip(from as int), SEPARATOR),
{
    let mut i: usize = from;
    while i < chars.len() && chars[i] != SEPARATOR
        invariant
            from <= i <= chars.len(),
            forall|k: int| from <= k < i ==> chars@[k] != SEPARATOR,
        decreases chars.len() - i,
    {
        i += 1;
    }
    proof {
        lemma_index_of_unique(chars@.skip(from as int), SEPARATOR, i - from);
    }
    i
}

impl LogEntry {
    /// Reads one line. Returns the record where the line holds at least
    /// two separators, and `None` otherwise.
    pub fn from_line(line: &str) -> (r: Option<LogEntry>)
        ensures
            r is Some <==> has_two_separators(line@),
            match r {
                Some(e) => parse_line(line@) == Some(e@),
                None => parse_line(line@) is None,
            },
    {
        proof {
            lemma_parse_line_some(line@);
        }
        let chars = to_chars(line);
        let n = chars.len();
        let i = find_separator(&chars, 0);
        assert(chars@.skip(0) == chars@);
        if i >= n {
            return None;
        }
        let j = find_separator(&chars, i + 1);
        if j >= n {
            return None;
        }
        let (a0, b0) = trim_range(&chars, 0, i);
        let (a1, b1) = trim_range(&chars, i + 1, j);
        let (a2, b2) = trim_range(&chars, j + 1, n);
        proof {
            let s = line@;
            let rest = s.skip(i + 1);
            assert(s.take(i as int) == s.subrange(0, i as int));
            assert(rest.take(j - i - 1) == s.subrange(i + 1, j as int));
            assert(rest.skip(j - i) == s.subrange(j + 1, n as int));
        }
        Some(
            LogEntry {
                timestamp: line.substring_char(a0, b0).to_owned(),
                level: line.substring_char(a1, b1).to_owned(),
                message: line.substring_char(a2, b2).to_owned(),
            },
        )
    }

    /// Writes the record as one line, the fields joined by separators.
    /// Nothing is escaped.
    pub fn to_line(&self) -> (line: String)
        ensures
            line@ == render_line(self@),
    {
        proof {
            reveal_strlit("|");
            assert("|"@ == seq![SEPARATOR]);
        }
        let mut line = self.timestamp.clone();
        line.append("|");
        line.append(self.level.as_str());
        line.append("|");
        line.append(self.message.as_str());
        line
    }
}

} // verus!
