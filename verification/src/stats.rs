//! Counting the entries of each level.
//!
//! The result is a list of rows, one for each level that occurs, each
//! with the number of entries of exactly that level. Levels are compared
//! as they are written: `INFO` and `info` are two levels here.

use crate::analyzer::LogAnalyzer;
use crate::entry::Record;
use crate::text::{index_of, lemma_index_of, lemma_index_of_unique};
use vstd::prelude::*;

verus! {

/// The records whose level is exactly `level`.
pub open spec fn has_level(level: Seq<char>) -> spec_fn(Record) -> bool {
    |r: Record| r.level == level
}

/// The number of records in `entries` whose level is exactly `level`.
pub open spec fn count_level(entries: Seq<Record>, level: Seq<char>) -> nat {
    entries.filter(has_level(level)).len()
}

/// The levels of `entries`, in order.
pub open spec fn levels(entries: Seq<Record>) -> Seq<Seq<char>> {
    entries.map_values(|r: Record| r.level)
}

/// The position of the first record of `entries` whose level is exactly
/// `level`, or `entries.len()` where there is none.
pub open spec fn first_with_level(entries: Seq<Record>, level: Seq<char>) -> int {
    index_of(levels(entries), level)
}

/// The sum of the counts of `rows`.
pub open spec fn total_count(rows: Seq<(String, usize)>) -> nat
    decreases rows.len(),
{
    if rows.len() == 0 {
        0
    } else {
        total_count(rows.drop_last()) + rows.last().1 as nat
    }
}

/// `rows` is the tally of `entries`: one row for each level that occurs
/// and none twice, each with the number of records of its level, in the
/// order in which the levels first occur.
pub open spec fn is_tally(rows: Seq<(String, usize)>, entries: Seq<Record>) -> bool {
    &&& forall|i: int, j: int|
        0 <= i < j < rows.len() ==> (#[trigger] rows[i]).0@ != (#[trigger] rows[j]).0@
    &&& forall|k: int|
        0 <= k < entries.len() ==> exists|i: int|
            0 <= i < rows.len() && (#[trigger] rows[i]).0@ == (#[trigger] entries[k]).level
    &&& forall|i: int|
        0 <= i < rows.len() ==> (#[trigger] rows[i]).1 >= 1 && rows[i].1 == count_level(
            entries,
            rows[i].0@,
        )
    &&& forall|i: int, j: int|
        0 <= i < j < rows.len() ==> first_with_level(entries, (#[trigger] rows[i]).0@)
            < first_with_level(entries, (#[trigger] rows[j]).0@)
}

/// Raising one count by one raises the sum by one.
proof fn lemma_total_count_update(rows: Seq<(String, usize)>, i: int, row: (String, usize))
    requires
        0 <= i < rows.len(),
        row.1 == rows[i].1 + 1,
    ensures
        total_count(rows.update(i, row)) == total_count(rows) + 1,
    decreases rows.len(),
{
    let after = rows.update(i, row);
    if i == rows.len() - 1 {
        assert(after.drop_last() =~= rows.drop_last());
    } else {
        assert(after.drop_last() =~= rows.drop_last().update(i, row));
        lemma_total_count_update(rows.drop_last(), i, row);
    }
}

/// The count of a level over a prefix that grows by one record.
proof fn lemma_count_level_step(entries: Seq<Record>, k: int, level: Seq<char>)
    requires
        0 <= k < entries.len(),
    ensures
        count_level(entries.take(k + 1), level) == count_level(entries.take(k), level) + if entries[k].level
            == level {
            1nat
        } else {
            0nat
        },
{
    assert(entries.take(k + 1) =~= entries.take(k).push(entries[k]));
    entries.take(k).lemma_filter_push(entries[k], has_level(level));
}

/// Where a level first occurs in a prefix that grows by one record.
proof fn lemma_first_with_level_step(entries: Seq<Record>, k: int, level: Seq<char>)
    requires
        0 <= k < entries.len(),
    ensures
        first_with_level(entries.take(k), level) < k ==> first_with_level(entries.take(k + 1), level)
            == first_with_level(entries.take(k), level),
        first_with_level(entries.take(k), level) == k && entries[k].level == level
            ==> first_with_level(entries.take(k + 1), level) == k,
        first_with_level(entries.take(k), level) <= k,
{
    let before = levels(entries.take(k));
    let after = levels(entries.take(k + 1));
    lemma_index_of(before, level);
    let f = index_of(before, level);
    assert forall|m: int| 0 <= m < k implies after[m] == before[m] by {}
    if f < k {
        lemma_index_of_unique(after, level, f);
    } else if entries[k].level == level {
        lemma_index_of_unique(after, level, k);
    }
}

/// A level is counted at least once exactly where it occurs.
pub proof fn lemma_count_level_positive(entries: Seq<Record>, level: Seq<char>)
    ensures
        0 <= first_with_level(entries, level) <= entries.len(),
        count_level(entries, level) >= 1 <==> first_with_level(entries, level) < entries.len(),
        count_level(entries, level) <= entries.len(),
{
    let pred = has_level(level);
    let kept = entries.filter(pred);
    let f = first_with_level(entries, level);
    lemma_index_of(levels(entries), level);
    entries.lemma_filter_len(pred);
    if f < entries.len() {
        assert(levels(entries)[f] == level);
        entries.lemma_filter_contains(pred, f);
    } else if kept.len() >= 1 {
        entries.lemma_filter_pred(pred, 0);
        assert(kept.contains(kept[0]));
        entries.lemma_filter_contains_rev(pred, kept[0]);
        let m = choose|m: int| 0 <= m < entries.len() && entries[m] == kept[0];
        assert(levels(entries)[m] == level);
    }
}

/// What the rows already there say of a prefix that grows by one record:
/// each of their levels has occurred, so it keeps its first position, and
/// its count grows exactly where the new record has that level.
proof fn lemma_rows_step(rows: Seq<(String, usize)>, entries: Seq<Record>, k: int)
    requires
        0 <= k < entries.len(),
        is_tally(rows, entries.take(k)),
    ensures
        forall|i: int|
            0 <= i < rows.len() ==> {
                let level = (#[trigger] rows[i]).0@;
                &&& rows[i].1 <= k
                &&& first_with_level(entries.take(k), level) < k
                &&& first_with_level(entries.take(k + 1), level) == first_with_level(
                    entries.take(k),
                    level,
                )
                &&& count_level(entries.take(k + 1), level) == rows[i].1 + if level
                    == entries[k].level {
                    1nat
                } else {
                    0nat
                }
            },
{
    assert forall|i: int| 0 <= i < rows.len() implies {
        let level = (#[trigger] rows[i]).0@;
        &&& rows[i].1 <= k
        &&& first_with_level(entries.take(k), level) < k
        &&& first_with_level(entries.take(k + 1), level) == first_with_level(entries.take(k), level)
        &&& count_level(entries.take(k + 1), level) == rows[i].1 + if level == entries[k].level {
            1nat
        } else {
            0nat
        }
    } by {
        let level = rows[i].0@;
        lemma_count_level_step(entries, k, level);
        lemma_first_with_level_step(entries, k, level);
        lemma_count_level_positive(entries.take(k), level);
    }
}

/// Every level of a prefix that grows by one record has a row, where the
/// levels of the prefix had one in `before` and the new level has one in
/// `after`, which keeps the levels of `before` in their places.
proof fn lemma_rows_cover(
    before: Seq<(String, usize)>,
    after: Seq<(String, usize)>,
    entries: Seq<Record>,
    k: int,
    at: int,
)
    requires
        0 <= k < entries.len(),
        is_tally(before, entries.take(k)),
        before.len() <= after.len(),
        forall|i: int| 0 <= i < before.len() ==> (#[trigger] after[i]).0@ == before[i].0@,
        0 <= at < after.len(),
        after[at].0@ == entries[k].level,
    ensures
        forall|m: int|
            0 <= m <= k ==> exists|i: int|
                0 <= i < after.len() && (#[trigger] after[i]).0@ == (#[trigger] entries.take(
                    k + 1,
                )[m]).level,
{
    let seen = entries.take(k);
    let next = entries.take(k + 1);
    assert forall|m: int| 0 <= m <= k implies exists|i: int|
        0 <= i < after.len() && (#[trigger] after[i]).0@ == (#[trigger] next[m]).level by {
        if m < k {
            let i = choose|i: int|
                0 <= i < before.len() && (#[trigger] before[i]).0@ == seen[m].level;
            assert(after[i].0@ == next[m].level);
        } else {
            assert(after[at].0@ == next[m].level);
        }
    }
}

/// The tally of a prefix that grows by a record whose level has a row:
/// that row counts one more.
proof fn lemma_tally_counts_one_more(
    before: Seq<(String, usize)>,
    entries: Seq<Record>,
    k: int,
    at: int,
    row: (String, usize),
)
    requires
        0 <= k < entries.len(),
        is_tally(before, entries.take(k)),
        0 <= at < before.len(),
        before[at].0@ == entries[k].level,
        row.0@ == entries[k].level,
        row.1 == before[at].1 + 1,
    ensures
        is_tally(before.update(at, row), entries.take(k + 1)),
        total_count(before.update(at, row)) == total_count(before) + 1,
{
    let after = before.update(at, row);
    lemma_rows_step(before, entries, k);
    lemma_rows_cover(before, after, entries, k, at);
    lemma_total_count_update(before, at, row);
    assert forall|i: int| 0 <= i < after.len() implies (#[trigger] after[i]).0@ == before[i].0@ by {}
}

/// The tally of a prefix that grows by a record whose level has no row
/// yet: a new last row that counts one.
proof fn lemma_tally_gains_a_row(
    before: Seq<(String, usize)>,
    entries: Seq<Record>,
    k: int,
    row: (String, usize),
)
    requires
        0 <= k < entries.len(),
        is_tally(before, entries.take(k)),
        forall|i: int| 0 <= i < before.len() ==> (#[trigger] before[i]).0@ != entries[k].level,
        row.0@ == entries[k].level,
        row.1 == 1,
    ensures
        is_tally(before.push(row), entries.take(k + 1)),
        total_count(before.push(row)) == total_count(before) + 1,
{
    let after = before.push(row);
    let seen = entries.take(k);
    let level = entries[k].level;
    lemma_rows_step(before, entries, k);
    lemma_rows_cover(before, after, entries, k, before.len() as int);
    assert(after.drop_last() =~= before);
    // the new level has not occurred, so it first occurs here and counts one
    lemma_index_of(levels(seen), level);
    let f = first_with_level(seen, level);
    if f < k {
        assert(levels(seen)[f] == seen[f].level);
        let i = choose|i: int| 0 <= i < before.len() && (#[trigger] before[i]).0@ == seen[f].level;
        assert(before[i].0@ != level);
    }
    lemma_count_level_positive(seen, level);
    lemma_count_level_step(entries, k, level);
    lemma_first_with_level_step(entries, k, level);
    assert forall|i: int| 0 <= i < before.len() implies (#[trigger] after[i]) == before[i] by {}
}

impl LogAnalyzer {
    /// Counts the entries of each level. The rows come in the order in
    /// which their levels first occur in the store.
    pub fn get_statistics(&self) -> (rows: Vec<(String, usize)>)
        ensures
            is_tally(rows@, self@),
            total_count(rows@) == self@.len(),
    {
        let mut rows: Vec<(String, usize)> = Vec::new();
        let mut k: usize = 0;
        while k < self.entries.len()
            invariant
                k <= self.entries.len(),
                is_tally(rows@, self@.take(k as int)),
                total_count(rows@) == k,
            decreases self.entries.len() - k,
        {
            let entry = &self.entries[k];
            let ghost before = rows@;
            assert(self@[k as int].level == entry.level@);
            let mut at: usize = 0;
            while at < rows.len() && rows[at].0 != entry.level
                invariant
                    at <= rows.len(),
                    rows@ == before,
                    forall|i: int| 0 <= i < at ==> (#[trigger] rows@[i]).0@ != entry.level@,
                decreases rows.len() - at,
            {
                at += 1;
            }
            if at < rows.len() {
                proof {
                    lemma_rows_step(before, self@, k as int);
                }
                let row = (entry.level.clone(), rows[at].1 + 1);
                proof {
                    lemma_tally_counts_one_more(before, self@, k as int, at as int, row);
                }
                rows.set(at, row);
            } else {
                let row = (entry.level.clone(), 1usize);
                proof {
                    lemma_tally_gains_a_row(before, self@, k as int, row);
                }
                rows.push(row);
            }
            k += 1;
        }
        assert(self@.take(k as int) =~= self@);
        rows
    }
}

} // verus!
