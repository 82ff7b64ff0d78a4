//! The log store: an ordered collection of entries and its queries.

use crate::clock::{local_time_text, timestamp_shape, TIMESTAMP_FORMAT};
use crate::entry::{records, LogEntry, Record};
use crate::text::{
    chars_contain, chars_eq_ignore_ascii_case, lowercase, occurs_at, occurs_in,
    same_ignoring_ascii_case, to_chars, to_lowercase,
};
use vstd::prelude::*;

verus! {

/// The store. Entries stand in the order in which they were added or
/// loaded; the same entry may stand there more than once.
pub struct LogAnalyzer {
    pub entries: Vec<LogEntry>,
}

impl View for LogAnalyzer {
    type V = Seq<Record>;

    open spec fn view(&self) -> Seq<Record> {
        records(self.entries@)
    }
}

/// The records whose level is `level`, up to the case of ASCII letters.
pub open spec fn level_matches(level: Seq<char>) -> spec_fn(Record) -> bool {
    |r: Record| same_ignoring_ascii_case(r.level, level)
}

/// The records whose message, in lower case, holds `query` in lower case.
pub open spec fn message_matches(query: Seq<char>) -> spec_fn(Record) -> bool {
    |r: Record| occurs_in(lowercase(query), lowercase(r.message))
}

/// The last `count` of `entries`, or all of them where there are fewer.
pub open spec fn recent(entries: Seq<Record>, count: nat) -> Seq<Record> {
    if count >= entries.len() {
        entries
    } else {
        entries.skip(entries.len() - count)
    }
}

/// The records of `entries` with one more entry at the end.
proof fn lemma_records_push(entries: Seq<LogEntry>, e: LogEntry)
    ensures
        records(entries.push(e)) == records(entries).push(e@),
{
    assert(records(entries.push(e)) =~= records(entries).push(e@));
}

/// A filter read off a prefix that grows by one record.
proof fn lemma_filter_step(s: Seq<Record>, i: int, pred: spec_fn(Record) -> bool)
    requires
        0 <= i < s.len(),
    ensures
        s.take(i + 1).filter(pred) == if pred(s[i]) {
            s.take(i).filter(pred).push(s[i])
        } else {
            s.take(i).filter(pred)
        },
{
    assert(s.take(i + 1) =~= s.take(i).push(s[i]));
    s.take(i).lemma_filter_push(s[i], pred);
}

/// Levels that differ only in the case of their ASCII letters select the
/// same entries of every store.
pub proof fn lemma_filter_by_level_ignores_case(entries: Seq<Record>, a: Seq<char>, b: Seq<char>)
    requires
        same_ignoring_ascii_case(a, b),
    ensures
        entries.filter(level_matches(a)) == entries.filter(level_matches(b)),
    decreases entries.len(),
{
    reveal(Seq::filter);
    if entries.len() > 0 {
        lemma_filter_by_level_ignores_case(entries.drop_last(), a, b);
        let level = entries.last().level;
        assert(same_ignoring_ascii_case(level, a) <==> same_ignoring_ascii_case(level, b));
    }
}

/// A query that occurs in no message of the store, query and messages
/// taken in lower case, finds nothing.
pub proof fn lemma_search_without_match(entries: Seq<Record>, query: Seq<char>)
    requires
        forall|i: int|
            0 <= i < entries.len() ==> !occurs_in(
                lowercase(query),
                lowercase((#[trigger] entries[i]).message),
            ),
    ensures
        entries.filter(message_matches(query)) == Seq::<Record>::empty(),
    decreases entries.len(),
{
    reveal(Seq::filter);
    if entries.len() > 0 {
        let init = entries.drop_last();
        assert forall|i: int| 0 <= i < init.len() implies !occurs_in(
            lowercase(query),
            lowercase((#[trigger] init[i]).message),
        ) by {
            assert(init[i] == entries[i]);
        }
        lemma_search_without_match(init, query);
        assert(entries.last() == entries[entries.len() - 1]);
    }
}

impl LogAnalyzer {
    /// An empty store.
    pub fn new() -> (store: LogAnalyzer)
        ensures
            store@ == Seq::<Record>::empty(),
    {
        let store = LogAnalyzer { entries: Vec::new() };
        assert(store@ =~= Seq::<Record>::empty());
        store
    }

    /// Appends an entry with the given fields. Nothing is checked of them.
    pub fn add_entry_with_timestamp(&mut self, timestamp: String, level: String, message: String)
        ensures
            final(self)@ == old(self)@.push(
                Record { timestamp: timestamp@, level: level@, message: message@ },
            ),
    {
        let entry = LogEntry { timestamp, level, message };
        proof {
            lemma_records_push(self.entries@, entry);
        }
        self.entries.push(entry);
    }

    /// Appends an entry with the given level and message, stamped with the
    /// local time of the machine's clock. Nothing is checked of the level
    /// and the message.
    pub fn add_entry(&mut self, level: String, message: String)
        ensures
            final(self)@.len() == old(self)@.len() + 1,
            final(self)@.drop_last() == old(self)@,
            final(self)@.last().level == level@,
            final(self)@.last().message == message@,
            timestamp_shape(final(self)@.last().timestamp),
    {
        let timestamp = local_time_text(TIMESTAMP_FORMAT);
        self.add_entry_with_timestamp(timestamp, level, message);
        assert(self@.drop_last() =~= old(self)@);
    }

    /// Copies of the entries whose level is `level` up to the case of
    /// ASCII letters, in their order in the store.
    pub fn filter_by_level(&self, level: &str) -> (found: Vec<LogEntry>)
        ensures
            records(found@) == self@.filter(level_matches(level@)),
    {
        let wanted = to_chars(level);
        let mut found: Vec<LogEntry> = Vec::new();
        let mut i: usize = 0;
        assert(self@.take(0).filter(level_matches(level@)) =~= Seq::<Record>::empty()) by {
            reveal(Seq::filter);
        }
        assert(records(found@) =~= Seq::<Record>::empty());
        while i < self.entries.len()
            invariant
                i <= self.entries.len(),
                wanted@ == level@,
                records(found@) == self@.take(i as int).filter(level_matches(level@)),
            decreases self.entries.len() - i,
        {
            let entry = &self.entries[i];
            let given = to_chars(entry.level.as_str());
            proof {
                lemma_filter_step(self@, i as int, level_matches(level@));
            }
            if chars_eq_ignore_ascii_case(&given, &wanted) {
                let copy = entry.clone();
                proof {
                    lemma_records_push(found@, copy);
                }
                found.push(copy);
            }
            i += 1;
        }
        assert(self@.take(i as int) =~= self@);
        found
    }

    /// Copies of the entries whose message holds `query`, both taken in
    /// lower case, in their order in the store. The empty query finds
    /// every entry.
    pub fn search(&self, query: &str) -> (found: Vec<LogEntry>)
        ensures
            records(found@) == self@.filter(message_matches(query@)),
            query@.len() == 0 ==> records(found@) == self@,
    {
        let lowered = to_lowercase(query);
        let needle = to_chars(lowered.as_str());
        let mut found: Vec<LogEntry> = Vec::new();
        let mut i: usize = 0;
        assert(self@.take(0).filter(message_matches(query@)) =~= Seq::<Record>::empty()) by {
            reveal(Seq::filter);
        }
        assert(records(found@) =~= self@.take(0));
        while i < self.entries.len()
            invariant
                i <= self.entries.len(),
                needle@ == lowercase(query@),
                query@.len() == 0 ==> needle@.len() == 0,
                records(found@) == self@.take(i as int).filter(message_matches(query@)),
                query@.len() == 0 ==> records(found@) == self@.take(i as int),
            decreases self.entries.len() - i,
        {
            let entry = &self.entries[i];
            let message = to_lowercase(entry.message.as_str());
            let haystack = to_chars(message.as_str());
            proof {
                lemma_filter_step(self@, i as int, message_matches(query@));
                if needle@.len() == 0 {
                    assert(occurs_at(needle@, haystack@, 0)) by {
                        assert(haystack@.subrange(0, 0) =~= needle@);
                    }
                }
                assert(self@.take(i + 1) =~= self@.take(i as int).push(self@[i as int]));
            }
            if chars_contain(&haystack, &needle) {
                let copy = entry.clone();
                proof {
                    lemma_records_push(found@, copy);
                }
                found.push(copy);
            }
            i += 1;
        }
        assert(self@.take(i as int) =~= self@);
        found
    }

    /// The number of entries.
    pub fn count_total(&self) -> (n: usize)
        ensures
            n == self@.len(),
    {
        self.entries.len()
    }

    /// Copies of the last `count` entries in their order in the store, or
    /// of all entries where the store holds fewer.
    pub fn get_recent(&self, count: usize) -> (found: Vec<LogEntry>)
        ensures
            records(found@) == recent(self@, count as nat),
            count == 0 ==> found@.len() == 0,
            count >= self@.len() ==> records(found@) == self@,
    {
        let n = self.entries.len();
        let start: usize = if n > count {
            n - count
        } else {
            0
        };
        let mut found: Vec<LogEntry> = Vec::new();
        let mut i: usize = start;
        assert(records(found@) =~= self@.subrange(start as int, i as int));
        while i < n
            invariant
                n == self.entries.len(),
                start <= i <= n,
                records(found@) == self@.subrange(start as int, i as int),
            decreases n - i,
        {
            let copy = self.entries[i].clone();
            proof {
                lemma_records_push(found@, copy);
                assert(self@.subrange(start as int, i + 1) =~= self@.subrange(
                    start as int,
                    i as int,
                ).push(self@[i as int]));
            }
            found.push(copy);
            i += 1;
        }
        assert(self@.subrange(start as int, n as int) =~= recent(self@, count as nat));
        found
    }

    /// Removes every entry.
    pub fn clear(&mut self)
        ensures
            final(self)@ == Seq::<Record>::empty(),
    {
        self.entries.clear();
        assert(self@ =~= Seq::<Record>::empty());
    }
}

} // verus!
