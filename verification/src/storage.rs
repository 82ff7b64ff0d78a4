//! The stored form of a store: plain text, one line for each entry, each
//! line ended by a line feed.
//!
//! Reading is forgiving. A line that is not UTF-8, or that holds fewer
//! than two separators, is passed over and the lines after it are still
//! read. A carriage return before the line feed is white space at the end
//! of the message, and is dropped with it.

use crate::analyzer::LogAnalyzer;
use crate::entry::{
    canonical, has_two_separators, lemma_line_round_trip, lemma_parse_line_some, parse_line,
    records, render_line, LogEntry, Record,
};
use crate::text::{index_of, lemma_index_of, lemma_index_of_unique};
use vstd::prelude::*;
use vstd::string::StringExecFns;
use vstd::string::StringSliceAdditionalSpecFns;
use vstd::utf8::{
    decode_utf8, encode_scalar, encode_utf8, encode_utf8_decode_utf8, encode_utf8_valid_utf8,
    valid_utf8,
};

verus! {

/// The byte that ends a line.
pub const LINE_FEED: u8 = 10;

/// The lines of a file: the runs of bytes between line feeds. A last line
/// needs no line feed after it, and a line feed at the very end opens no
/// further line.
pub open spec fn split_lines(bytes: Seq<u8>) -> Seq<Seq<u8>>
    decreases bytes.len(),
{
    if bytes.len() == 0 {
        Seq::empty()
    } else {
        let i = index_of(bytes, LINE_FEED);
        if 0 <= i < bytes.len() {
            seq![bytes.take(i)] + split_lines(bytes.skip(i + 1))
        } else {
            seq![bytes]
        }
    }
}

/// The record that a line of bytes stands for, if it stands for one.
pub open spec fn decode_line(line: Seq<u8>) -> Option<Record> {
    if valid_utf8(line) {
        parse_line(decode_utf8(line))
    } else {
        None
    }
}

/// What a line adds to a store: its record, or nothing.
pub open spec fn line_records(line: Seq<u8>) -> Seq<Record> {
    match decode_line(line) {
        Some(r) => seq![r],
        None => Seq::empty(),
    }
}

/// The records of the lines that stand for one, in order.
pub open spec fn records_of_lines(lines: Seq<Seq<u8>>) -> Seq<Record>
    decreases lines.len(),
{
    if lines.len() == 0 {
        Seq::empty()
    } else {
        line_records(lines.first()) + records_of_lines(lines.drop_first())
    }
}

/// The records that a file holds.
pub open spec fn parse_file(bytes: Seq<u8>) -> Seq<Record> {
    records_of_lines(split_lines(bytes))
}

/// The store after a load of `data` into a store that held `before`.
pub open spec fn after_load(before: Seq<Record>, data: Seq<u8>) -> Seq<Record> {
    before + parse_file(data)
}

/// The text of a file that holds `entries`: the line of each, in order,
/// each followed by a line feed.
pub open spec fn render_file(entries: Seq<Record>) -> Seq<char>
    decreases entries.len(),
{
    if entries.len() == 0 {
        Seq::empty()
    } else {
        render_file(entries.drop_last()) + render_line(entries.last()) + seq!['\n']
    }
}

/// The records of a file, read off its first line and the rest.
proof fn lemma_parse_file_step(bytes: Seq<u8>, end: int)
    requires
        0 <= end <= bytes.len(),
        bytes.len() > 0,
        forall|k: int| 0 <= k < end ==> bytes[k] != LINE_FEED,
        end < bytes.len() ==> bytes[end] == LINE_FEED,
    ensures
        parse_file(bytes) == line_records(bytes.take(end)) + parse_file(
            if end < bytes.len() {
                bytes.skip(end + 1)
            } else {
                Seq::empty()
            },
        ),
{
    lemma_index_of_unique(bytes, LINE_FEED, end);
    let lines = split_lines(bytes);
    if end < bytes.len() {
        assert(lines.drop_first() =~= split_lines(bytes.skip(end + 1)));
    } else {
        assert(bytes.take(end) =~= bytes);
        assert(lines.drop_first() =~= split_lines(Seq::empty()));
    }
}

/// The lines of two pieces of a file, the first of which ends where a
/// line ends, are the lines of the first and then those of the second.
pub proof fn lemma_split_lines_concat(a: Seq<u8>, b: Seq<u8>)
    requires
        a.len() == 0 || a.last() == LINE_FEED,
    ensures
        split_lines(a + b) == split_lines(a) + split_lines(b),
    decreases a.len(),
{
    if a.len() == 0 {
        assert(a + b =~= b);
        assert(split_lines(a) + split_lines(b) =~= split_lines(b));
    } else {
        let i = index_of(a, LINE_FEED);
        lemma_index_of(a, LINE_FEED);
        if i >= a.len() {
            assert(a[a.len() - 1] != LINE_FEED);
        }
        lemma_index_of_unique(a + b, LINE_FEED, i);
        let rest = a.skip(i + 1);
        assert((a + b).take(i) =~= a.take(i));
        assert((a + b).skip(i + 1) =~= rest + b);
        if rest.len() > 0 {
            assert(rest.last() == a.last());
        }
        lemma_split_lines_concat(rest, b);
        assert(split_lines(a + b) =~= split_lines(a) + split_lines(b));
    }
}

/// The records of two runs of lines are those of the first and then
/// those of the second.
pub proof fn lemma_records_of_lines_concat(x: Seq<Seq<u8>>, y: Seq<Seq<u8>>)
    ensures
        records_of_lines(x + y) == records_of_lines(x) + records_of_lines(y),
    decreases x.len(),
{
    if x.len() == 0 {
        assert(x + y =~= y);
        assert(records_of_lines(x) + records_of_lines(y) =~= records_of_lines(y));
    } else {
        assert((x + y).drop_first() =~= x.drop_first() + y);
        lemma_records_of_lines_concat(x.drop_first(), y);
        assert(records_of_lines(x + y) =~= records_of_lines(x) + records_of_lines(y));
    }
}

/// A file made of one line and its line feed has that one line, and so
/// has a file made of a line alone that is not empty.
proof fn lemma_split_single_line(line: Seq<u8>)
    requires
        !line.contains(LINE_FEED),
    ensures
        split_lines(line + seq![LINE_FEED]) == seq![line],
        line.len() > 0 ==> split_lines(line) == seq![line],
        line.len() == 0 ==> split_lines(line) == Seq::<Seq<u8>>::empty(),
{
    let whole = line + seq![LINE_FEED];
    assert forall|k: int| 0 <= k < line.len() implies line[k] != LINE_FEED by {
        assert(line.contains(line[k]));
    }
    lemma_index_of_unique(whole, LINE_FEED, line.len() as int);
    assert(whole.take(line.len() as int) =~= line);
    assert(whole.skip(line.len() as int + 1) =~= Seq::<u8>::empty());
    assert(split_lines(Seq::<u8>::empty()) =~= Seq::<Seq<u8>>::empty());
    assert(split_lines(whole) =~= seq![line]);
    if line.len() > 0 {
        lemma_index_of_unique(line, LINE_FEED, line.len() as int);
    }
}

/// A line that stands for no record leaves no trace: the file reads as
/// if the line were not there. This holds of every line with fewer than
/// two separators, and of every line that is not UTF-8.
pub proof fn lemma_skipped_line(head: Seq<u8>, line: Seq<u8>, tail: Seq<u8>)
    requires
        head.len() == 0 || head.last() == LINE_FEED,
        !line.contains(LINE_FEED),
        valid_utf8(line) ==> !has_two_separators(decode_utf8(line)),
    ensures
        decode_line(line) is None,
        parse_file(head + line + seq![LINE_FEED] + tail) == parse_file(head + tail),
        parse_file(head + line) == parse_file(head),
{
    if valid_utf8(line) {
        lemma_parse_line_some(decode_utf8(line));
    }
    let ended = line + seq![LINE_FEED];
    lemma_split_single_line(line);
    assert(records_of_lines(Seq::<Seq<u8>>::empty()) =~= Seq::<Record>::empty());
    assert(records_of_lines(seq![line]) =~= Seq::<Record>::empty()) by {
        assert(seq![line].drop_first() =~= Seq::<Seq<u8>>::empty());
    }
    // the line in the middle of the file
    assert(head + line + seq![LINE_FEED] + tail =~= head + (ended + tail));
    lemma_split_lines_concat(head, ended + tail);
    lemma_split_lines_concat(ended, tail);
    lemma_records_of_lines_concat(split_lines(head), split_lines(ended + tail));
    lemma_records_of_lines_concat(split_lines(ended), split_lines(tail));
    lemma_split_lines_concat(head, tail);
    lemma_records_of_lines_concat(split_lines(head), split_lines(tail));
    assert(parse_file(ended + tail) =~= parse_file(tail));
    // the line at the end of the file
    lemma_split_lines_concat(head, line);
    lemma_records_of_lines_concat(split_lines(head), split_lines(line));
    assert(parse_file(head + line) =~= parse_file(head));
}

/// Loading appends: a second load of the same file adds the same records
/// once more. So two loads into an empty store leave twice the entries
/// that one load leaves.
pub proof fn lemma_load_twice(before: Seq<Record>, data: Seq<u8>)
    ensures
        after_load(after_load(before, data), data) == before + parse_file(data) + parse_file(data),
        after_load(after_load(before, data), data).len() == after_load(before, data).len()
            + parse_file(data).len(),
        before.len() == 0 ==> after_load(after_load(before, data), data).len() == 2 * after_load(
            before,
            data,
        ).len(),
{
}

/// The bytes of a text made of two pieces are the bytes of the first and
/// then those of the second.
pub proof fn lemma_encode_concat(a: Seq<char>, b: Seq<char>)
    ensures
        encode_utf8(a + b) == encode_utf8(a) + encode_utf8(b),
    decreases a.len(),
{
    if a.len() == 0 {
        assert(a + b =~= b);
        assert(encode_utf8(a) + encode_utf8(b) =~= encode_utf8(b));
    } else {
        assert((a + b).drop_first() =~= a.drop_first() + b);
        lemma_encode_concat(a.drop_first(), b);
        assert(encode_utf8(a + b) =~= encode_utf8(a) + encode_utf8(b));
    }
}

/// Of the bytes that encode a character, only the single byte of the
/// line feed character is a line feed.
proof fn lemma_scalar_line_feed(c: u32)
    by (bit_vector)
    ensures
        c <= 0x7F ==> ((c & 0x7F) as u8 == 10u8 <==> c == 10u32),
        0xC0u8 | ((c >> 6) & 0x1F) as u8 != 10u8,
        0xE0u8 | ((c >> 12) & 0x0F) as u8 != 10u8,
        0xF0u8 | ((c >> 18) & 0x7) as u8 != 10u8,
        0x80u8 | (c & 0x3F) as u8 != 10u8,
        0x80u8 | ((c >> 6) & 0x3F) as u8 != 10u8,
        0x80u8 | ((c >> 12) & 0x3F) as u8 != 10u8,
{
}

/// Among the bytes that encode `c` there is a line feed only where `c`
/// is the line feed character, which is encoded by that one byte.
proof fn lemma_encoded_line_feed(c: char)
    ensures
        forall|k: int|
            0 <= k < encode_scalar(c as u32).len() && #[trigger] encode_scalar(c as u32)[k]
                == LINE_FEED ==> c == '\n',
        encode_scalar('\n' as u32) == seq![LINE_FEED],
{
    lemma_scalar_line_feed(c as u32);
    lemma_scalar_line_feed('\n' as u32);
    assert('\n' as u32 == 10u32);
    assert(encode_scalar('\n' as u32) =~= seq![LINE_FEED]);
}

/// A text without a line feed character has no line feed among its bytes.
pub proof fn lemma_encode_without_line_feed(s: Seq<char>)
    requires
        !s.contains('\n'),
    ensures
        !encode_utf8(s).contains(LINE_FEED),
    decreases s.len(),
{
    if s.len() > 0 {
        let c = s[0];
        let rest = s.drop_first();
        assert(s.contains(c));
        assert forall|k: int| 0 <= k < rest.len() implies rest[k] != '\n' by {
            assert(s.contains(s[k + 1]));
        }
        lemma_encode_without_line_feed(rest);
        lemma_encoded_line_feed(c);
        let first = encode_scalar(c as u32);
        let bytes = encode_utf8(s);
        assert(bytes == first + encode_utf8(rest));
        assert forall|k: int| 0 <= k < bytes.len() implies bytes[k] != LINE_FEED by {
            if k >= first.len() {
                assert(encode_utf8(rest).contains(encode_utf8(rest)[k - first.len()]));
            } else {
                assert(bytes[k] == first[k]);
            }
        }
    }
}

/// A record that comes back from a file: it is canonical and none of its
/// fields holds a line feed character.
pub open spec fn storable(r: Record) -> bool {
    &&& canonical(r)
    &&& !r.timestamp.contains('\n')
    &&& !r.level.contains('\n')
    &&& !r.message.contains('\n')
}

/// The text of a file is empty or ends with a line feed character.
proof fn lemma_render_file_ends(entries: Seq<Record>)
    ensures
        render_file(entries).len() == 0 || render_file(entries).last() == '\n',
        entries.len() == 0 ==> render_file(entries).len() == 0,
{
}

/// Saving and loading gives the store back: a file written from storable
/// records holds exactly those records, in order. In particular the file
/// written from an empty store holds none.
pub proof fn lemma_file_round_trip(entries: Seq<Record>)
    requires
        forall|i: int| 0 <= i < entries.len() ==> storable(#[trigger] entries[i]),
    ensures
        parse_file(encode_utf8(render_file(entries))) == entries,
    decreases entries.len(),
{
    if entries.len() == 0 {
        assert(parse_file(encode_utf8(render_file(entries))) =~= entries);
    } else {
        let init = entries.drop_last();
        let r = entries.last();
        let line = render_line(r);
        let head = encode_utf8(render_file(init));
        assert(storable(r));
        assert forall|i: int| 0 <= i < init.len() implies storable(#[trigger] init[i]) by {
            assert(init[i] == entries[i]);
        }
        lemma_file_round_trip(init);
        // the bytes of the file: those of the entries before, the line, a line feed
        lemma_encode_concat(render_file(init) + line, seq!['\n']);
        lemma_encode_concat(render_file(init), line);
        lemma_encoded_line_feed('\n');
        assert(encode_utf8(seq!['\n']) =~= seq![LINE_FEED]) by {
            reveal_with_fuel(encode_utf8, 2);
            assert(seq!['\n'].drop_first() =~= Seq::<char>::empty());
        }
        let ended = encode_utf8(line) + seq![LINE_FEED];
        assert(encode_utf8(render_file(entries)) =~= head + ended);
        // where the lines before end
        lemma_render_file_ends(init);
        if render_file(init).len() > 0 {
            let text = render_file(init);
            assert(text =~= text.drop_last() + seq!['\n']);
            lemma_encode_concat(text.drop_last(), seq!['\n']);
        }
        // the last line holds no line feed and reads as `r`
        assert(!line.contains('\n')) by {
            if line.contains('\n') {
                let k = choose|k: int| 0 <= k < line.len() && line[k] == '\n';
                let a = r.timestamp.len() as int;
                let b = a + 1 + r.level.len();
                if k < a {
                    assert(r.timestamp.contains(r.timestamp[k]));
                } else if a < k < b {
                    assert(r.level.contains(r.level[k - a - 1]));
                } else if k > b {
                    assert(r.message.contains(r.message[k - b - 1]));
                }
            }
        }
        lemma_encode_without_line_feed(line);
        lemma_split_single_line(encode_utf8(line));
        lemma_line_round_trip(r);
        encode_utf8_valid_utf8(line);
        encode_utf8_decode_utf8(line);
        assert(records_of_lines(Seq::<Seq<u8>>::empty()) =~= Seq::<Record>::empty());
        assert(records_of_lines(seq![encode_utf8(line)]) =~= seq![r]) by {
            assert(seq![encode_utf8(line)].drop_first() =~= Seq::<Seq<u8>>::empty());
        }
        lemma_split_lines_concat(head, ended);
        lemma_records_of_lines_concat(split_lines(head), split_lines(ended));
        assert(parse_file(head + ended) =~= entries);
    }
}

/// Calls `core::str::from_utf8`. Trusted: the call succeeds exactly on
/// the byte sequences that are valid UTF-8, and the text it returns is
/// made of the bytes it was given.
#[verifier::external_body]
fn str_from_utf8(bytes: &[u8]) -> (r: Option<&str>)
    ensures
        r is Some <==> valid_utf8(bytes@),
        r matches Some(text) ==> text.spec_bytes() == bytes@,
{
    match core::str::from_utf8(bytes) {
        Ok(text) => Some(text),
        Err(_) => None,
    }
}

/// Reads one line of a file.
pub fn read_record(line: &[u8]) -> (r: Option<LogEntry>)
    ensures
        match r {
            Some(e) => decode_line(line@) == Some(e@),
            None => decode_line(line@) is None,
        },
{
    match str_from_utf8(line) {
        Some(text) => {
            proof {
                encode_utf8_decode_utf8(text@);
            }
            LogEntry::from_line(text)
        },
        None => None,
    }
}

impl LogAnalyzer {
    /// Appends the records that the file content `data` holds, in the
    /// order of their lines. The entries already in the store stay.
    pub fn load_from_bytes(&mut self, data: &[u8])
        ensures
            final(self)@ == after_load(old(self)@, data@),
    {
        let n = data.len();
        let mut pos: usize = 0;
        assert(data@.skip(0) =~= data@);
        while pos < n
            invariant
                n == data.len(),
                pos <= n,
                self@ + parse_file(data@.skip(pos as int)) == old(self)@ + parse_file(data@),
            decreases n - pos,
        {
            let mut end: usize = pos;
            while end < n && data[end] != LINE_FEED
                invariant
                    n == data.len(),
                    pos <= end <= n,
                    forall|k: int| pos <= k < end ==> data@[k] != LINE_FEED,
                decreases n - end,
            {
                end += 1;
            }
            let line = vstd::slice::slice_subrange(data, pos, end);
            let ghost rest = data@.skip(pos as int);
            let ghost before = self@;
            proof {
                lemma_parse_file_step(rest, end - pos);
                assert(rest.take(end - pos) =~= line@);
                if end < n {
                    assert(rest.skip(end - pos + 1) =~= data@.skip(end + 1));
                } else {
                    assert(data@.skip(end as int) =~= Seq::<u8>::empty());
                }
            }
            match read_record(line) {
                Some(entry) => {
                    proof {
                        assert(records(self.entries@.push(entry)) =~= before + line_records(line@));
                    }
                    self.entries.push(entry);
                },
                None => {
                    assert(before + line_records(line@) =~= before);
                },
            }
            pos = if end < n {
                end + 1
            } else {
                end
            };
            assert(self@ + parse_file(data@.skip(pos as int)) =~= before + (line_records(line@)
                + parse_file(data@.skip(pos as int))));
        }
        assert(parse_file(data@.skip(pos as int)) =~= Seq::<Record>::empty());
        assert(self@ + Seq::<Record>::empty() =~= self@);
    }

    /// The text of a file that holds the entries of the store.
    pub fn save_to_string(&self) -> (text: String)
        ensures
            text@ == render_file(self@),
    {
        let mut text = String::new();
        let mut i: usize = 0;
        assert(self@.take(0) =~= Seq::<Record>::empty());
        while i < self.entries.len()
            invariant
                i <= self.entries.len(),
                text@ == render_file(self@.take(i as int)),
            decreases self.entries.len() - i,
        {
            let line = self.entries[i].to_line();
            proof {
                reveal_strlit("\n");
                assert(self@.take(i + 1).drop_last() =~= self@.take(i as int));
                assert("\n"@ =~= seq!['\n']);
            }
            text.append(line.as_str());
            text.append("\n");
            i += 1;
        }
        assert(self@.take(i as int) =~= self@);
        text
    }
}

} // verus!
