//! The shapes that cross the boundary of the store: the record that is
//! logged, the requests to remember and to recall, and what a recall
//! returns.

use vstd::prelude::*;
use vstd::string::*;
use crate::error::{Field, MemoryError};
use crate::text::{
    chars_of, decimal, join, joined, opt_text, push_all, push_str, replace_char, replaced, rows,
    same_str, slice_of, string_of, texts, trim, trimmed, write_decimal,
};

verus! {

/// One record of the log.
#[derive(Debug, Clone)]
pub struct MemoryItem {
    pub id: String,
    pub namespace: String,
    pub recorded_at: String,
    pub occurred_at: Option<String>,
    pub keywords: Vec<String>,
    pub slice: String,
    pub diary: String,
    pub importance: Option<u8>,
    pub source: Option<String>,
}

/// A record of the log, as texts.
pub struct MemoryItemView {
    pub id: Seq<char>,
    pub namespace: Seq<char>,
    pub recorded_at: Seq<char>,
    pub occurred_at: Option<Seq<char>>,
    pub keywords: Seq<Seq<char>>,
    pub slice: Seq<char>,
    pub diary: Seq<char>,
    pub importance: Option<u8>,
    pub source: Option<Seq<char>>,
}

impl View for MemoryItem {
    type V = MemoryItemView;

    open spec fn view(&self) -> MemoryItemView {
        MemoryItemView {
            id: self.id@,
            namespace: self.namespace@,
            recorded_at: self.recorded_at@,
            occurred_at: opt_text(self.occurred_at),
            keywords: texts(self.keywords@),
            slice: self.slice@,
            diary: self.diary@,
            importance: self.importance,
            source: opt_text(self.source),
        }
    }
}

/// A request to remember something.
#[derive(Debug, Clone)]
pub struct RememberArgs {
    pub namespace: String,
    pub keywords: Vec<String>,
    pub slice: String,
    pub diary: String,
    pub occurred_at: Option<String>,
    pub importance: Option<u8>,
    pub source: Option<String>,
}

/// A request to remember something, as texts.
pub struct RememberArgsView {
    pub namespace: Seq<char>,
    pub keywords: Seq<Seq<char>>,
    pub slice: Seq<char>,
    pub diary: Seq<char>,
    pub occurred_at: Option<Seq<char>>,
    pub importance: Option<u8>,
    pub source: Option<Seq<char>>,
}

impl View for RememberArgs {
    type V = RememberArgsView;

    open spec fn view(&self) -> RememberArgsView {
        RememberArgsView {
            namespace: self.namespace@,
            keywords: texts(self.keywords@),
            slice: self.slice@,
            diary: self.diary@,
            occurred_at: opt_text(self.occurred_at),
            importance: self.importance,
            source: opt_text(self.source),
        }
    }
}

/// A request to recall.
#[derive(Debug, Clone)]
pub struct RecallArgs {
    pub namespace: String,
    pub keywords: Vec<String>,
    pub start: Option<String>,
    pub end: Option<String>,
    pub query: Option<String>,
    pub limit: usize,
    pub include_diary: bool,
}

/// A request to recall, as texts.
pub struct RecallArgsView {
    pub namespace: Seq<char>,
    pub keywords: Seq<Seq<char>>,
    pub start: Option<Seq<char>>,
    pub end: Option<Seq<char>>,
    pub query: Option<Seq<char>>,
    pub limit: usize,
    pub include_diary: bool,
}

impl View for RecallArgs {
    type V = RecallArgsView;

    open spec fn view(&self) -> RecallArgsView {
        RecallArgsView {
            namespace: self.namespace@,
            keywords: texts(self.keywords@),
            start: opt_text(self.start),
            end: opt_text(self.end),
            query: opt_text(self.query),
            limit: self.limit,
            include_diary: self.include_diary,
        }
    }
}

/// One recalled record, as it is handed out.
#[derive(Debug, Clone)]
pub struct RecallItemOut {
    pub id: String,
    pub recorded_at: String,
    pub occurred_at: Option<String>,
    pub keywords: Vec<String>,
    pub matched_keywords: Option<Vec<String>>,
    pub slice: String,
    pub diary: Option<String>,
    pub importance: Option<u8>,
    pub source: Option<String>,
}

/// One recalled record, as texts.
pub struct RecallItemOutView {
    pub id: Seq<char>,
    pub recorded_at: Seq<char>,
    pub occurred_at: Option<Seq<char>>,
    pub keywords: Seq<Seq<char>>,
    pub matched_keywords: Option<Seq<Seq<char>>>,
    pub slice: Seq<char>,
    pub diary: Option<Seq<char>>,
    pub importance: Option<u8>,
    pub source: Option<Seq<char>>,
}

impl View for RecallItemOut {
    type V = RecallItemOutView;

    open spec fn view(&self) -> RecallItemOutView {
        RecallItemOutView {
            id: self.id@,
            recorded_at: self.recorded_at@,
            occurred_at: opt_text(self.occurred_at),
            keywords: texts(self.keywords@),
            matched_keywords: match self.matched_keywords {
                Some(m) => Some(texts(m@)),
                None => None,
            },
            slice: self.slice@,
            diary: opt_text(self.diary),
            importance: self.importance,
            source: opt_text(self.source),
        }
    }
}

/// The views of a sequence of recalled records.
pub open spec fn outs(items: Seq<RecallItemOut>) -> Seq<RecallItemOutView> {
    Seq::new(items.len(), |i: int| items[i]@)
}

/// What a recall returns.
#[derive(Debug, Clone)]
pub struct RecallResult {
    pub total: usize,
    pub items: Vec<RecallItemOut>,
}

impl View for RecallResult {
    type V = Seq<RecallItemOutView>;

    open spec fn view(&self) -> Seq<RecallItemOutView> {
        outs(self.items@)
    }
}

/// The limit that a recall works with: 20 where none or 0 is asked for, and
/// never more than 100.
pub open spec fn effective_limit(asked: Option<u64>) -> usize {
    match asked {
        None => 20,
        Some(n) => if n == 0 {
            20
        } else if n > 100 {
            100
        } else {
            n as usize
        },
    }
}

/// The limit that a recall works with.
pub fn clamp_limit(asked: Option<u64>) -> (r: usize)
    ensures
        r == effective_limit(asked),
        1 <= r <= 100,
        asked == Some(0u64) ==> r == 20,
        asked matches Some(n) && n > 100 ==> r == 100,
{
    match asked {
        None => 20,
        Some(n) => if n == 0 {
            20
        } else if n > 100 {
            100
        } else {
            n as usize
        },
    }
}

/// Whether an importance is acceptable: none, or one in `1..=5`.
pub open spec fn importance_ok(importance: Option<u8>) -> bool {
    importance matches Some(n) ==> 1 <= n <= 5
}

/// Accepts a missing importance and one in `1..=5`.
pub fn check_importance(importance: Option<u8>) -> (r: Result<(), MemoryError>)
    ensures
        r is Ok <==> importance_ok(importance),
        r matches Err(e) ==> e == MemoryError::InvalidImportance,
{
    match importance {
        Some(n) => if n >= 1 && n <= 5 {
            Ok(())
        } else {
            Err(MemoryError::InvalidImportance)
        },
        None => Ok(()),
    }
}

/// `text` on one line: line feeds and carriage returns become spaces, and
/// white space is taken off both ends.
pub open spec fn one_line(text: Seq<char>) -> Seq<char> {
    trimmed(replaced(replaced(text, '\n', ' '), '\r', ' '))
}

/// `text` on one line and cut to at most `max_len` characters; where it is
/// cut, an ellipsis follows.
pub open spec fn truncated(text: Seq<char>, max_len: nat) -> Seq<char> {
    let s = one_line(text);
    if s.len() <= max_len {
        s
    } else {
        s.take(max_len as int).push('…')
    }
}

/// Puts `text` on one line and cuts it to at most `max_len` characters,
/// marking the cut with an ellipsis.
pub fn truncate_one_line(text: &str, max_len: usize) -> (r: Vec<char>)
    ensures
        r@ == truncated(text@, max_len as nat),
{
    let s = trim(&replace_char(&replace_char(&chars_of(text), '\n', ' '), '\r', ' '));
    if s.len() <= max_len {
        return s;
    }
    assert(s@.subrange(0, max_len as int) == s@.take(max_len as int));
    let mut out = slice_of(&s, 0, max_len);
    out.push('…');
    out
}

/// The time shown for a recalled record: when it occurred, if that is known,
/// else when it was recorded.
pub open spec fn shown_time(item: RecallItemOutView) -> Seq<char> {
    match item.occurred_at {
        Some(t) => t,
        None => item.recorded_at,
    }
}

/// The keywords of a recalled record as they are shown: nothing where it has
/// none.
pub open spec fn shown_keywords(item: RecallItemOutView) -> Seq<char> {
    if item.keywords.len() == 0 {
        Seq::empty()
    } else {
        " keywords="@ + joined(item.keywords, seq![','])
    }
}

/// The line of the summary for the record at position `i`, counted from 0.
pub open spec fn summary_line(i: nat, item: RecallItemOutView) -> Seq<char> {
    decimal(i + 1) + ". ["@ + shown_time(item) + "]"@ + shown_keywords(item) + " id="@ + item.id
        + " slice="@ + truncated(item.slice, 120)
}

/// The heading of the summary and one line for each of the first `n`
/// records.
pub open spec fn summary_lines(items: Seq<RecallItemOutView>, n: nat) -> Seq<Seq<char>>
    decreases n,
{
    if n == 0 {
        seq!["命中 "@ + decimal(items.len()) + " 条记忆："@]
    } else {
        summary_lines(items, (n - 1) as nat).push(summary_line((n - 1) as nat, items[n - 1]))
    }
}

/// The summary of a recall in words: a fixed sentence where nothing was
/// found, else a heading with the count and a numbered line for each record.
pub open spec fn summary(items: Seq<RecallItemOutView>) -> Seq<char> {
    if items.len() == 0 {
        "未命中记忆。"@
    } else {
        joined(summary_lines(items, items.len()), seq!['\n'])
    }
}

/// The characters of each string of a list.
fn rows_of(v: &Vec<String>) -> (r: Vec<Vec<char>>)
    ensures
        rows(r@) == texts(v@),
{
    let mut r: Vec<Vec<char>> = Vec::new();
    let mut i: usize = 0;
    while i < v.len()
        invariant
            i <= v.len(),
            rows(r@) == texts(v@).take(i as int),
        decreases v.len() - i,
    {
        let ghost before = rows(r@);
        r.push(chars_of(v[i].as_str()));
        assert(rows(r@) == before.push(v@[i as int]@));
        assert(texts(v@).take(i + 1) == texts(v@).take(i as int).push(v@[i as int]@));
        i += 1;
    }
    assert(texts(v@).take(v.len() as int) == texts(v@));
    r
}

impl RecallItemOut {
    /// The line of the summary for this record at position `i`.
    fn render_line(&self, i: usize) -> (r: Vec<char>)
        requires
            i < usize::MAX,
        ensures
            r@ == summary_line(i as nat, self@),
    {
        let mut line = write_decimal(i + 1);
        push_str(&mut line, ". [");
        match &self.occurred_at {
            Some(t) => push_str(&mut line, t.as_str()),
            None => push_str(&mut line, self.recorded_at.as_str()),
        }
        push_str(&mut line, "]");
        if self.keywords.len() > 0 {
            let mut comma: Vec<char> = Vec::new();
            comma.push(',');
            assert(comma@ == seq![',']);
            let mut shown = chars_of(" keywords=");
            push_all(&mut shown, &join(&rows_of(&self.keywords), &comma));
            push_all(&mut line, &shown);
        } else {
            assert(line@ + Seq::<char>::empty() == line@);
        }
        push_str(&mut line, " id=");
        push_str(&mut line, self.id.as_str());
        push_str(&mut line, " slice=");
        push_all(&mut line, &truncate_one_line(self.slice.as_str(), 120));
        line
    }
}

impl RecallResult {
    /// The result that holds the given records.
    pub fn new(items: Vec<RecallItemOut>) -> (r: RecallResult)
        ensures
            r.items == items,
            r.total == items.len(),
    {
        RecallResult { total: items.len(), items }
    }

    /// The summary of the recall in words.
    pub fn render_text_summary(&self) -> (r: String)
        ensures
            r@ == summary(self@),
    {
        if self.items.len() == 0 {
            return String::from_str("未命中记忆。");
        }
        let mut lines: Vec<Vec<char>> = Vec::new();
        let mut head = chars_of("命中 ");
        push_all(&mut head, &write_decimal(self.items.len()));
        push_str(&mut head, " 条记忆：");
        lines.push(head);
        assert(rows(lines@) == summary_lines(self@, 0));
        let mut i: usize = 0;
        while i < self.items.len()
            invariant
                i <= self.items.len(),
                rows(lines@) == summary_lines(self@, i as nat),
            decreases self.items.len() - i,
        {
            let ghost before = rows(lines@);
            let line = self.items[i].render_line(i);
            lines.push(line);
            assert(self@[i as int] == self.items@[i as int]@);
            assert(rows(lines@) == before.push(lines@.last()@));
            i += 1;
        }
        let mut newline: Vec<char> = Vec::new();
        newline.push('\n');
        assert(newline@ == seq!['\n']);
        string_of(&join(&lines, &newline))
    }
}

/// A value of a request's arguments, as far as the store reads it.
#[derive(Debug, Clone)]
pub enum ArgValue {
    /// The JSON `null`.
    Null,
    /// A JSON boolean.
    Bool(bool),
    /// A JSON number that is a non-negative integer below 2^64.
    Unsigned(u64),
    /// Any other JSON number: a negative one, a fraction, one too large.
    Number,
    /// A JSON string.
    Text(String),
    /// A JSON array: for each member its text, where it is a string.
    List(Vec<Option<String>>),
    /// Any other value.
    Other,
}

/// One named argument of a request.
#[derive(Debug, Clone)]
pub struct Argument {
    pub key: String,
    pub value: ArgValue,
}

/// The arguments of a request: the members of a JSON object, in order. A
/// value that is not an object has no members.
#[derive(Debug, Clone)]
pub struct Arguments {
    pub entries: Vec<Argument>,
}

/// The position of the first argument named `key` at or after `from`, or
/// the number of arguments.
pub open spec fn position_of_key(entries: Seq<Argument>, key: Seq<char>, from: int) -> int
    decreases entries.len() - from,
{
    if from < 0 || from >= entries.len() {
        entries.len() as int
    } else if entries[from].key@ == key {
        from
    } else {
        position_of_key(entries, key, from + 1)
    }
}

/// The text that an argument holds: the trimmed string, where the argument
/// is there, is a string, and is not blank.
pub open spec fn text_argument(entries: Seq<Argument>, key: Seq<char>) -> Option<Seq<char>> {
    let at = position_of_key(entries, key, 0);
    if 0 <= at < entries.len() && entries[at].value is Text && trimmed(
        entries[at].value->Text_0@,
    ).len() > 0 {
        Some(trimmed(entries[at].value->Text_0@))
    } else {
        None
    }
}

/// The trimmed, non-blank texts among the members of a list, in order.
pub open spec fn list_texts(members: Seq<Option<String>>) -> Seq<Seq<char>>
    decreases members.len(),
{
    if members.len() == 0 {
        Seq::empty()
    } else {
        let before = list_texts(members.drop_last());
        match members.last() {
            Some(s) => if trimmed(s@).len() > 0 {
                before.push(trimmed(s@))
            } else {
                before
            },
            None => before,
        }
    }
}

/// The number that an argument holds, where it is there and is a
/// non-negative integer.
pub open spec fn number_argument(entries: Seq<Argument>, key: Seq<char>) -> Option<u64> {
    let at = position_of_key(entries, key, 0);
    if 0 <= at < entries.len() && entries[at].value is Unsigned {
        Some(entries[at].value->Unsigned_0)
    } else {
        None
    }
}

/// The importance that a request carries. None where the argument is
/// missing or is no number; a number must be an integer in `1..=5`, and any
/// other number is refused.
pub open spec fn importance_argument(entries: Seq<Argument>) -> Result<Option<u8>, MemoryError> {
    let at = position_of_key(entries, "importance"@, 0);
    if !(0 <= at < entries.len()) {
        Ok(None)
    } else {
        match entries[at].value {
            ArgValue::Unsigned(n) => if 1 <= n <= 5 {
                Ok(Some(n as u8))
            } else {
                Err(MemoryError::InvalidImportance)
            },
            ArgValue::Number => Err(MemoryError::InvalidImportance),
            _ => Ok(None),
        }
    }
}

/// What the arguments of a request to remember amount to. The namespace, the
/// slice and the diary must be there and not be blank, in this order of
/// complaint, the keywords coming second; the keywords must be a list; and
/// an importance that is a number must be an integer in `1..=5`.
pub open spec fn remember_request(entries: Seq<Argument>) -> Result<RememberArgsView, MemoryError> {
    let at = position_of_key(entries, "keywords"@, 0);
    if text_argument(entries, "namespace"@) is None {
        Err(MemoryError::EmptyField(Field::Namespace))
    } else if !(0 <= at < entries.len() && entries[at].value is List) {
        Err(MemoryError::KeywordsNotArray)
    } else if text_argument(entries, "slice"@) is None {
        Err(MemoryError::EmptyField(Field::Slice))
    } else if text_argument(entries, "diary"@) is None {
        Err(MemoryError::EmptyField(Field::Diary))
    } else if importance_argument(entries) is Err {
        Err(MemoryError::InvalidImportance)
    } else {
        Ok(
            RememberArgsView {
                namespace: text_argument(entries, "namespace"@)->0,
                keywords: list_texts(entries[at].value->List_0@),
                slice: text_argument(entries, "slice"@)->0,
                diary: text_argument(entries, "diary"@)->0,
                occurred_at: text_argument(entries, "occurred_at"@),
                importance: importance_argument(entries)->Ok_0,
                source: text_argument(entries, "source"@),
            },
        )
    }
}

/// What the arguments of a request to recall amount to. The namespace must
/// be there and not be blank; keywords that are there and are not `null`
/// must be a list. The limit is 20 where none or 0 is given, and at most
/// 100; the diary is left out unless it is asked for.
pub open spec fn recall_request(entries: Seq<Argument>) -> Result<RecallArgsView, MemoryError> {
    let at = position_of_key(entries, "keywords"@, 0);
    let diary_at = position_of_key(entries, "include_diary"@, 0);
    let given = 0 <= at < entries.len() && !(entries[at].value is Null);
    if text_argument(entries, "namespace"@) is None {
        Err(MemoryError::EmptyField(Field::Namespace))
    } else if given && !(entries[at].value is List) {
        Err(MemoryError::KeywordsNotArray)
    } else {
        Ok(
            RecallArgsView {
                namespace: text_argument(entries, "namespace"@)->0,
                keywords: if given {
                    list_texts(entries[at].value->List_0@)
                } else {
                    Seq::empty()
                },
                start: text_argument(entries, "start"@),
                end: text_argument(entries, "end"@),
                query: text_argument(entries, "query"@),
                limit: effective_limit(number_argument(entries, "limit"@)),
                include_diary: 0 <= diary_at < entries.len() && entries[diary_at].value is Bool
                    && entries[diary_at].value->Bool_0,
            },
        )
    }
}

impl Arguments {
    /// The first argument named `key`.
    pub fn get(&self, key: &str) -> (r: Option<&ArgValue>)
        ensures
            ({
                let at = position_of_key(self.entries@, key@, 0);
                if 0 <= at < self.entries@.len() {
                    r == Some(&self.entries@[at].value)
                } else {
                    r is None
                }
            }),
    {
        let mut i: usize = 0;
        while i < self.entries.len()
            invariant
                i <= self.entries.len(),
                position_of_key(self.entries@, key@, 0) == position_of_key(
                    self.entries@,
                    key@,
                    i as int,
                ),
            decreases self.entries.len() - i,
        {
            if same_str(self.entries[i].key.as_str(), key) {
                return Some(&self.entries[i].value);
            }
            i += 1;
        }
        None
    }

    /// The trimmed text of the argument named `key`, where it is a string
    /// that is not blank.
    pub fn text(&self, key: &str) -> (r: Option<String>)
        ensures
            opt_text(r) == text_argument(self.entries@, key@),
    {
        match self.get(key) {
            Some(ArgValue::Text(s)) => {
                let t = trim(&chars_of(s.as_str()));
                if t.len() > 0 {
                    Some(string_of(&t))
                } else {
                    None
                }
            },
            _ => None,
        }
    }

    /// The number of the argument named `key`, where it is a non-negative
    /// integer.
    pub fn number(&self, key: &str) -> (r: Option<u64>)
        ensures
            r == number_argument(self.entries@, key@),
    {
        match self.get(key) {
            Some(ArgValue::Unsigned(n)) => Some(*n),
            _ => None,
        }
    }
}

/// The trimmed, non-blank texts among the members of a list, in order.
pub fn texts_of_list(members: &Vec<Option<String>>) -> (r: Vec<String>)
    ensures
        texts(r@) == list_texts(members@),
{
    let mut out: Vec<String> = Vec::new();
    let mut i: usize = 0;
    assert(members@.take(0) == Seq::<Option<String>>::empty());
    while i < members.len()
        invariant
            i <= members.len(),
            texts(out@) == list_texts(members@.take(i as int)),
        decreases members.len() - i,
    {
        proof {
            assert(members@.take(i + 1).drop_last() == members@.take(i as int));
            assert(members@.take(i + 1).last() == members@[i as int]);
        }
        if let Some(s) = &members[i] {
            let t = trim(&chars_of(s.as_str()));
            if t.len() > 0 {
                let ghost before = texts(out@);
                let kept = string_of(&t);
                let ghost shown = kept@;
                out.push(kept);
                assert(texts(out@) == before.push(shown));
            }
        }
        i += 1;
    }
    assert(members@.take(members.len() as int) == members@);
    out
}

impl RememberArgs {
    /// Reads a request to remember from its arguments.
    pub fn from_json(v: &Arguments) -> (r: Result<RememberArgs, MemoryError>)
        ensures
            match remember_request(v.entries@) {
                Ok(args) => r is Ok && r->Ok_0@ == args,
                Err(e) => r is Err && r->Err_0 == e,
            },
    {
        let namespace = match v.text("namespace") {
            Some(s) => s,
            None => { return Err(MemoryError::EmptyField(Field::Namespace)); },
        };
        let keywords = match v.get("keywords") {
            Some(ArgValue::List(members)) => texts_of_list(members),
            _ => { return Err(MemoryError::KeywordsNotArray); },
        };
        let slice = match v.text("slice") {
            Some(s) => s,
            None => { return Err(MemoryError::EmptyField(Field::Slice)); },
        };
        let diary = match v.text("diary") {
            Some(s) => s,
            None => { return Err(MemoryError::EmptyField(Field::Diary)); },
        };
        let occurred_at = v.text("occurred_at");
        let importance = match v.get("importance") {
            Some(ArgValue::Unsigned(n)) => if *n >= 1 && *n <= 5 {
                Some(*n as u8)
            } else {
                return Err(MemoryError::InvalidImportance);
            },
            Some(ArgValue::Number) => { return Err(MemoryError::InvalidImportance); },
            _ => None,
        };
        let source = v.text("source");
        Ok(RememberArgs { namespace, keywords, slice, diary, occurred_at, importance, source })
    }
}

impl RecallArgs {
    /// Reads a request to recall from its arguments.
    pub fn from_json(v: &Arguments) -> (r: Result<RecallArgs, MemoryError>)
        ensures
            match recall_request(v.entries@) {
                Ok(args) => r is Ok && r->Ok_0@ == args,
                Err(e) => r is Err && r->Err_0 == e,
            },
            r matches Ok(args) ==> 1 <= args.limit <= 100,
    {
        let namespace = match v.text("namespace") {
            Some(s) => s,
            None => { return Err(MemoryError::EmptyField(Field::Namespace)); },
        };
        let keywords: Vec<String> = match v.get("keywords") {
            None => Vec::new(),
            Some(ArgValue::Null) => Vec::new(),
            Some(ArgValue::List(members)) => texts_of_list(members),
            Some(_) => { return Err(MemoryError::KeywordsNotArray); },
        };
        assert(keywords@.len() == 0 ==> texts(keywords@) == Seq::<Seq<char>>::empty());
        let start = v.text("start");
        let end = v.text("end");
        let query = v.text("query");
        let limit = clamp_limit(v.number("limit"));
        let include_diary = match v.get("include_diary") {
            Some(ArgValue::Bool(b)) => *b,
            _ => false,
        };
        Ok(RecallArgs { namespace, keywords, start, end, query, limit, include_diary })
    }
}

} // verus!
