//! The record log as the index sees it: a run of bytes that falls into
//! lines, and lines that either hold a record or do not.

use vstd::prelude::*;
use vstd::string::*;
use crate::index::{IndexData, IndexDataView, IndexItemView};
use crate::keywords::{lemma_normalized_distinct, normalize_keywords, normalized};
use crate::model::{MemoryItem, MemoryItemView};
use crate::text::{chars_of, copy_texts, texts};
use crate::time::{read_secs, secs_of, DateBoundKind};

verus! {

/// Where one line lies in a run of bytes.
#[derive(Debug, Clone, Copy, PartialEq, Eq, Structural)]
pub struct LineSpan {
    /// Where the line begins.
    pub start: usize,
    /// The length of the line, its line ending included.
    pub length: usize,
    /// The length of the line without its line ending.
    pub body_len: usize,
}

/// The end of the line that begins at `from`: just behind its line feed, or
/// the end of the bytes where no line feed follows.
pub open spec fn line_end(bytes: Seq<u8>, from: int) -> int
    decreases bytes.len() - from,
{
    if from < 0 || from >= bytes.len() {
        bytes.len() as int
    } else if bytes[from] == 10 {
        from + 1
    } else {
        line_end(bytes, from + 1)
    }
}

/// The length of the line from `from` to `end` without its line ending: a
/// final line feed does not count, nor a carriage return just before it.
pub open spec fn body_length(bytes: Seq<u8>, from: int, end: int) -> int {
    let n = end - from;
    if n >= 2 && bytes[end - 2] == 13 && bytes[end - 1] == 10 {
        n - 2
    } else if n >= 1 && bytes[end - 1] == 10 {
        n - 1
    } else {
        n
    }
}

/// The lines into which the bytes from `from` on fall. Every byte belongs to
/// one line; the last line need not end in a line feed.
pub open spec fn lines_from(bytes: Seq<u8>, from: int) -> Seq<LineSpan>
    decreases bytes.len() - from,
{
    if from < 0 || from >= bytes.len() {
        Seq::empty()
    } else {
        let end = line_end(bytes, from);
        if end <= from || end > bytes.len() {
            Seq::empty()
        } else {
            seq![
                LineSpan {
                    start: from as usize,
                    length: (end - from) as usize,
                    body_len: body_length(bytes, from, end) as usize,
                },
            ] + lines_from(bytes, end)
        }
    }
}

/// The end of a line lies behind its beginning and within the bytes.
pub proof fn lemma_line_end(bytes: Seq<u8>, from: int)
    requires
        0 <= from < bytes.len(),
    ensures
        from < line_end(bytes, from) <= bytes.len(),
    decreases bytes.len() - from,
{
    if bytes[from] == 10 {
    } else if from + 1 < bytes.len() {
        lemma_line_end(bytes, from + 1);
    } else {
        assert(line_end(bytes, from + 1) == bytes.len());
    }
}

/// The lines of a run of bytes follow each other without gap from the first
/// byte to the last, and none is empty.
pub proof fn lemma_lines_tile(bytes: Seq<u8>, from: int)
    requires
        0 <= from <= bytes.len() <= usize::MAX,
    ensures
        forall|i: int|
            0 <= i < lines_from(bytes, from).len() ==> {
                let line = #[trigger] lines_from(bytes, from)[i];
                &&& line.length > 0
                &&& line.body_len <= line.length
                &&& line.start + line.length <= bytes.len()
                &&& line.start == if i == 0 {
                    from
                } else {
                    lines_from(bytes, from)[i - 1].start + lines_from(bytes, from)[i - 1].length
                }
            },
        lines_from(bytes, from).len() > 0 ==> lines_from(bytes, from).last().start
            + lines_from(bytes, from).last().length == bytes.len(),
        from < bytes.len() ==> lines_from(bytes, from).len() > 0,
    decreases bytes.len() - from,
{
    if from < bytes.len() {
        lemma_line_end(bytes, from);
        let end = line_end(bytes, from);
        lemma_lines_tile(bytes, end);
        let rest = lines_from(bytes, end);
        let all = lines_from(bytes, from);
        assert forall|i: int| 0 <= i < all.len() implies {
            let line = #[trigger] all[i];
            &&& line.length > 0
            &&& line.body_len <= line.length
            &&& line.start + line.length <= bytes.len()
            &&& line.start == if i == 0 {
                from
            } else {
                all[i - 1].start + all[i - 1].length
            }
        } by {
            if i > 0 {
                assert(all[i] == rest[i - 1]);
                if i > 1 {
                    assert(all[i - 1] == rest[i - 2]);
                }
            }
        }
        if rest.len() > 0 {
            assert(all.last() == rest.last());
        }
    }
}

/// Splits a run of bytes into its lines.
pub fn split_log_lines(bytes: &[u8]) -> (r: Vec<LineSpan>)
    ensures
        r@ == lines_from(bytes@, 0),
{
    let n = bytes.len();
    let mut out: Vec<LineSpan> = Vec::new();
    let mut from: usize = 0;
    while from < n
        invariant
            from <= n,
            n == bytes@.len(),
            lines_from(bytes@, 0) == out@ + lines_from(bytes@, from as int),
        decreases n - from,
    {
        let mut end: usize = from;
        let mut found = false;
        while end < n && !found
            invariant
                from <= end <= n,
                n == bytes@.len(),
                !found ==> line_end(bytes@, from as int) == line_end(bytes@, end as int),
                found ==> line_end(bytes@, from as int) == end && end > from,
            decreases n - end + (if found { 0int } else { 1int }),
        {
            if bytes[end] == 10 {
                found = true;
            }
            end += 1;
        }
        proof {
            lemma_line_end(bytes@, from as int);
        }
        let len = end - from;
        let body_len = if len >= 2 && bytes[end - 2] == 13 && bytes[end - 1] == 10 {
            len - 2
        } else if len >= 1 && bytes[end - 1] == 10 {
            len - 1
        } else {
            len
        };
        let ghost before = out@;
        out.push(LineSpan { start: from, length: len, body_len });
        assert(before + lines_from(bytes@, from as int) == out@ + lines_from(bytes@, end as int));
        from = end;
    }
    assert(out@ + Seq::<LineSpan>::empty() == out@);
    out
}

/// One line of the log as it is handed to the index: its length in bytes,
/// line ending included, and the record it holds, if it holds one.
#[derive(Debug, Clone)]
pub struct LogLine {
    pub length: u32,
    pub record: Option<MemoryItem>,
}

/// One line of the log, as a mathematical value.
pub struct LogLineView {
    pub length: u32,
    pub record: Option<MemoryItemView>,
}

impl View for LogLine {
    type V = LogLineView;

    open spec fn view(&self) -> LogLineView {
        LogLineView {
            length: self.length,
            record: match self.record {
                Some(item) => Some(item@),
                None => None,
            },
        }
    }
}

/// The views of a sequence of lines.
pub open spec fn line_views(lines: Seq<LogLine>) -> Seq<LogLineView> {
    Seq::new(lines.len(), |i: int| lines[i]@)
}

/// The bytes that a sequence of lines takes up.
pub open spec fn total_length(lines: Seq<LogLineView>) -> nat
    decreases lines.len(),
{
    if lines.len() == 0 {
        0
    } else {
        total_length(lines.drop_last()) + lines.last().length as nat
    }
}

/// The seconds under which a record is entered for its time of recording:
/// what the text reads as, and 0 where it does not read.
pub open spec fn recorded_secs(recorded_at: Seq<char>) -> i64 {
    match secs_of(recorded_at, DateBoundKind::Start) {
        Some(t) => t,
        None => 0,
    }
}

/// The seconds under which a record is entered for its time of occurrence:
/// what the text reads as, where there is a text and it reads.
pub open spec fn occurred_secs(occurred_at: Option<Seq<char>>) -> Option<i64> {
    match occurred_at {
        Some(text) => secs_of(text, DateBoundKind::Start),
        None => None,
    }
}

/// The time key that the texts of a record give it: the seconds of its
/// time of occurrence, where it has them, else those of its time of
/// recording.
pub open spec fn text_time_key(recorded_at: Seq<char>, occurred_at: Option<Seq<char>>) -> i64 {
    match occurred_secs(occurred_at) {
        Some(t) => t,
        None => recorded_secs(recorded_at),
    }
}

/// What the index keeps of a record that is read back from the log at
/// `offset`: its keywords are normalized again, and its times are read from
/// their texts, the time of recording counting as 0 where it does not read.
pub open spec fn entry_for(record: MemoryItemView, offset: u64, length: u32) -> IndexItemView {
    IndexItemView {
        id: record.id,
        offset,
        length,
        recorded_at_ts: recorded_secs(record.recorded_at),
        occurred_at_ts: occurred_secs(record.occurred_at),
        importance: record.importance,
        keywords: normalized(record.keywords),
    }
}

/// The index once it has taken in the line that follows what it accounts
/// for: a line that holds a record enters it, any line moves the extent on.
pub open spec fn with_line(index: IndexDataView, line: LogLineView) -> IndexDataView {
    let entered = match line.record {
        Some(record) => index.with_item(
            entry_for(record, index.indexed_up_to_offset, line.length),
        ),
        None => index,
    };
    IndexDataView {
        indexed_up_to_offset: (index.indexed_up_to_offset + line.length) as u64,
        ..entered
    }
}

/// The index once it has taken in the given lines, one after the other.
pub open spec fn with_lines(index: IndexDataView, lines: Seq<LogLineView>) -> IndexDataView
    decreases lines.len(),
{
    if lines.len() == 0 {
        index
    } else {
        with_line(with_lines(index, lines.drop_last()), lines.last())
    }
}

/// The number of lines among `lines` that hold a record.
pub open spec fn records_in(lines: Seq<LogLineView>) -> nat
    decreases lines.len(),
{
    if lines.len() == 0 {
        0
    } else {
        records_in(lines.drop_last()) + if lines.last().record is Some {
            1nat
        } else {
            0nat
        }
    }
}

/// Taking in lines enters one record for each line that holds one, moves the
/// extent on by the length of the lines, and leaves the rest as it is.
pub proof fn lemma_with_lines_extent(index: IndexDataView, lines: Seq<LogLineView>)
    requires
        index.indexed_up_to_offset + total_length(lines) <= u64::MAX,
    ensures
        with_lines(index, lines).indexed_up_to_offset == index.indexed_up_to_offset + total_length(
            lines,
        ),
        with_lines(index, lines).items.len() == index.items.len() + records_in(lines),
        records_in(lines) <= lines.len(),
        with_lines(index, lines).version == index.version,
        with_lines(index, lines).namespace == index.namespace,
        with_lines(index, lines).memories_file == index.memories_file,
    decreases lines.len(),
{
    if lines.len() > 0 {
        lemma_with_lines_extent(index, lines.drop_last());
    }
}

/// Taking in lines keeps a consistent index consistent.
pub proof fn lemma_with_lines_consistent(index: IndexDataView, lines: Seq<LogLineView>)
    requires
        index.consistent(),
        index.items.len() + lines.len() <= u32::MAX,
        index.indexed_up_to_offset + total_length(lines) <= u64::MAX,
    ensures
        with_lines(index, lines).consistent(),
    decreases lines.len(),
{
    if lines.len() > 0 {
        let before = with_lines(index, lines.drop_last());
        lemma_with_lines_consistent(index, lines.drop_last());
        lemma_with_lines_extent(index, lines.drop_last());
        lemma_with_line_consistent(before, lines.last());
    }
}

/// Taking in one line keeps a consistent index consistent.
pub proof fn lemma_with_line_consistent(index: IndexDataView, line: LogLineView)
    requires
        index.consistent(),
        index.items.len() < u32::MAX,
        index.indexed_up_to_offset + line.length <= u64::MAX,
    ensures
        with_line(index, line).consistent(),
{
    let after = with_line(index, line);
    match line.record {
        Some(record) => {
            let entry = entry_for(record, index.indexed_up_to_offset, line.length);
            lemma_normalized_distinct(record.keywords);
            crate::index::lemma_with_item_wf(index, entry);
            assert forall|i: int| 0 <= i < after.items.len() implies (
            #[trigger] after.items[i]).offset + after.items[i].length
                <= after.indexed_up_to_offset by {
                if i < index.items.len() {
                    assert(after.items[i] == index.items[i]);
                }
            }
        },
        None => {
            assert forall|i: int| 0 <= i < after.items.len() implies (
            #[trigger] after.items[i]).offset + after.items[i].length
                <= after.indexed_up_to_offset by {
                assert(after.items[i] == index.items[i]);
            }
        },
    }
}

/// A line that holds no record enters nothing: the index takes it in by
/// moving its extent past the line.
pub proof fn lemma_unreadable_line_skipped(index: IndexDataView, length: u32)
    ensures
        with_line(index, LogLineView { length, record: None }) == (IndexDataView {
            indexed_up_to_offset: (index.indexed_up_to_offset + length) as u64,
            ..index
        }),
{
}

/// Every record of the index that came from the given lines lies where its
/// line lies in the log and is what the line holds: the position `k` among
/// the lines that hold records is entered behind the records that the index
/// had, at the offset that the lines before it add up to, with the length
/// of its line, the identifier and the importance of its record, and the
/// normalized keywords of its record.
pub proof fn lemma_items_match_lines(index: IndexDataView, lines: Seq<LogLineView>, at: int)
    requires
        0 <= at < lines.len(),
        lines[at].record is Some,
        index.indexed_up_to_offset + total_length(lines) <= u64::MAX,
    ensures
        ({
            let after = with_lines(index, lines);
            let k = index.items.len() + records_in(lines.take(at));
            &&& k < after.items.len()
            &&& after.items[k as int].offset == index.indexed_up_to_offset + total_length(
                lines.take(at),
            )
            &&& after.items[k as int].length == lines[at].length
            &&& after.items[k as int].id == lines[at].record->0.id
            &&& after.items[k as int].importance == lines[at].record->0.importance
            &&& after.items[k as int].keywords == normalized(lines[at].record->0.keywords)
        }),
    decreases lines.len(),
{
    let rest = lines.drop_last();
    lemma_with_lines_extent(index, rest);
    lemma_with_lines_extent(index, lines);
    if at == lines.len() - 1 {
        assert(lines.take(at) == rest);
    } else {
        assert(rest.take(at) == lines.take(at));
        assert(rest[at] == lines[at]);
        lemma_items_match_lines(index, rest, at);
        lemma_records_in_prefix(rest, at);
    }
}

/// A prefix of the lines holds no more records than the lines, and fewer
/// where a line that holds one follows it.
pub proof fn lemma_records_in_prefix(lines: Seq<LogLineView>, at: int)
    requires
        0 <= at <= lines.len(),
    ensures
        records_in(lines.take(at)) <= records_in(lines),
        at < lines.len() && lines[at].record is Some ==> records_in(lines.take(at)) < records_in(
            lines,
        ),
    decreases lines.len(),
{
    if at == lines.len() {
        assert(lines.take(at) == lines);
    } else {
        let rest = lines.drop_last();
        assert(rest.take(at) == lines.take(at));
        if at < rest.len() {
            assert(rest[at] == lines[at]);
        } else {
            assert(rest.take(at) == rest);
        }
        lemma_records_in_prefix(rest, at);
    }
}

/// What the index keeps of a record that is read back from the log.
fn entry_times(record: &MemoryItem) -> (r: (i64, Option<i64>))
    ensures
        r.0 == entry_for(record@, 0, 0).recorded_at_ts,
        r.1 == entry_for(record@, 0, 0).occurred_at_ts,
{
    let recorded = match read_secs(&chars_of(record.recorded_at.as_str()), DateBoundKind::Start) {
        Some(t) => t,
        None => 0,
    };
    let occurred = match &record.occurred_at {
        Some(text) => read_secs(&chars_of(text.as_str()), DateBoundKind::Start),
        None => None,
    };
    (recorded, occurred)
}

/// Takes the lines that follow what the index accounts for into the index.
///
/// A line that holds a record enters it at the offset that the index has
/// reached; a line that holds none is passed over. Either way the extent of
/// the index moves on by the length of the line.
pub fn incremental_index(index: &mut IndexData, lines: &Vec<LogLine>)
    requires
        old(index)@.items.len() + lines.len() <= u32::MAX,
        old(index)@.indexed_up_to_offset + total_length(line_views(lines@)) <= u64::MAX,
    ensures
        final(index)@ == with_lines(old(index)@, line_views(lines@)),
        old(index)@.consistent() ==> final(index)@.consistent(),
{
    let ghost start = index@;
    let ghost all = line_views(lines@);
    let mut i: usize = 0;
    assert(all.take(0) == Seq::<LogLineView>::empty());
    while i < lines.len()
        invariant
            i <= lines.len(),
            all == line_views(lines@),
            start.items.len() + lines.len() <= u32::MAX,
            start.indexed_up_to_offset + total_length(all) <= u64::MAX,
            index@ == with_lines(start, all.take(i as int)),
        decreases lines.len() - i,
    {
        proof {
            assert(all.take(i + 1).drop_last() == all.take(i as int));
            assert(all.take(i + 1).last() == lines@[i as int]@);
            lemma_total_length_prefix(all, i + 1);
            lemma_with_lines_extent(start, all.take(i as int));
            lemma_with_lines_extent(start, all.take(i + 1));
        }
        let line = &lines[i];
        let offset = index.indexed_up_to_offset;
        if let Some(record) = &line.record {
            let times = entry_times(record);
            let keywords = normalize_keywords(copy_texts(&record.keywords));
            index.add_memory_item(record, offset, line.length, times.0, times.1, keywords);
        }
        index.indexed_up_to_offset = offset + line.length as u64;
        i += 1;
    }
    assert(all.take(lines.len() as int) == all);
    proof {
        if start.consistent() {
            lemma_with_lines_consistent(start, all);
        }
    }
}

/// A prefix of the lines takes up no more bytes than the lines.
pub proof fn lemma_total_length_prefix(lines: Seq<LogLineView>, at: int)
    requires
        0 <= at <= lines.len(),
    ensures
        total_length(lines.take(at)) <= total_length(lines),
    decreases lines.len(),
{
    if at == lines.len() {
        assert(lines.take(at) == lines);
    } else {
        let rest = lines.drop_last();
        assert(rest.take(at) == lines.take(at));
        lemma_total_length_prefix(rest, at);
    }
}

/// Whether the lines are the lines of the bytes: one for each span into
/// which the bytes fall, with the length of the span.
pub open spec fn lines_frame(lines: Seq<LogLineView>, bytes: Seq<u8>) -> bool {
    &&& lines.len() == lines_from(bytes, 0).len()
    &&& forall|k: int|
        0 <= k < lines.len() ==> (#[trigger] lines[k]).length == lines_from(bytes, 0)[k].length
}

/// The lines of a run of bytes add up to the bytes: the lines before a line
/// take up the bytes before its span, and all lines together take up all
/// bytes.
pub proof fn lemma_lines_add_up(lines: Seq<LogLineView>, bytes: Seq<u8>, at: int)
    requires
        bytes.len() <= usize::MAX,
        lines_frame(lines, bytes),
        0 <= at <= lines.len(),
    ensures
        at < lines.len() ==> total_length(lines.take(at)) == lines_from(bytes, 0)[at].start,
        at == lines.len() ==> total_length(lines.take(at)) == bytes.len(),
    decreases at,
{
    let spans = lines_from(bytes, 0);
    lemma_lines_tile(bytes, 0);
    if at == 0 {
        assert(lines.take(0) == Seq::<LogLineView>::empty());
        if lines.len() > 0 {
            assert(spans[0].start == 0);
        }
    } else {
        lemma_lines_add_up(lines, bytes, at - 1);
        assert(lines.take(at).drop_last() == lines.take(at - 1));
        assert(lines.take(at).last() == lines[at - 1]);
        assert(lines[at - 1].length == spans[at - 1].length);
        if at < lines.len() {
            assert(spans[at].start == spans[at - 1].start + spans[at - 1].length);
        } else {
            assert(spans[at - 1] == spans.last());
        }
    }
}

/// Every record that came from the lines of the log's tail lies where its
/// line lies in the log.
///
/// Let the index account for the log up to some offset, and let `bytes` be
/// what follows in the log. Once the lines of `bytes` are taken in, the
/// record of the line at `at` stands at the offset of the span of that line,
/// counted from where the index stood, with the length of the span, line
/// ending included; it has the identifier and the importance of the record
/// that the line reads as, and its normalized keywords; and the index
/// accounts for the log up to the end of `bytes`.
pub proof fn lemma_items_located(
    index: IndexDataView,
    lines: Seq<LogLineView>,
    bytes: Seq<u8>,
    at: int,
)
    requires
        bytes.len() <= usize::MAX,
        lines_frame(lines, bytes),
        index.indexed_up_to_offset + bytes.len() <= u64::MAX,
        0 <= at < lines.len(),
        lines[at].record is Some,
    ensures
        with_lines(index, lines).indexed_up_to_offset == index.indexed_up_to_offset + bytes.len(),
        ({
            let after = with_lines(index, lines);
            let span = lines_from(bytes, 0)[at];
            let k = index.items.len() + records_in(lines.take(at));
            &&& k < after.items.len()
            &&& after.items[k as int].offset == index.indexed_up_to_offset + span.start
            &&& after.items[k as int].length == span.length
            &&& after.items[k as int].offset + after.items[k as int].length
                <= after.indexed_up_to_offset
            &&& after.items[k as int].id == lines[at].record->0.id
            &&& after.items[k as int].importance == lines[at].record->0.importance
            &&& after.items[k as int].keywords == normalized(lines[at].record->0.keywords)
        }),
{
    lemma_lines_add_up(lines, bytes, at);
    lemma_lines_add_up(lines, bytes, lines.len() as int);
    assert(lines.take(lines.len() as int) == lines);
    lemma_with_lines_extent(index, lines);
    lemma_items_match_lines(index, lines, at);
    lemma_lines_tile(bytes, 0);
}

/// Taking lines in enters one record, and names one position in the time
/// order, for each line that holds a record, whatever the lines add up to.
pub proof fn lemma_with_lines_extent_free(index: IndexDataView, lines: Seq<LogLineView>)
    ensures
        with_lines(index, lines).items.len() == index.items.len() + records_in(lines),
        with_lines(index, lines).time_sorted.len() == index.time_sorted.len() + records_in(lines),
        records_in(lines) <= lines.len(),
    decreases lines.len(),
{
    if lines.len() > 0 {
        lemma_with_lines_extent_free(index, lines.drop_last());
    }
}

} // verus!
