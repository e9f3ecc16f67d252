//! The free-text query of a recall request: time expressions such as
//! `time>=2025-05-01` are taken out of it and tighten the time range; the
//! words that remain are the text to search for.

use vstd::prelude::*;
use vstd::string::*;
use crate::text::{
    chars_of, find, find_from, join, joined, lemma_find_from, lowercase, occurs_at, rows,
    slice_of, split_words, string_of, trim, trimmed, unicode_lowercase, words,
};
use crate::time::{read_secs, secs_of, DateBoundKind};

verus! {

/// Whether `ts` lies in the closed range; a missing end of the range is open.
pub open spec fn within_range(ts: i64, start: Option<i64>, end: Option<i64>) -> bool {
    (start is Some ==> start->0 <= ts) && (end is Some ==> ts <= end->0)
}

/// Whether `ts` lies in the closed range; a missing end of the range is open.
pub fn in_time_range(ts: i64, start: Option<i64>, end: Option<i64>) -> (r: bool)
    ensures
        r == within_range(ts, start, end),
{
    if let Some(s) = start {
        if ts < s {
            return false;
        }
    }
    if let Some(e) = end {
        if ts > e {
            return false;
        }
    }
    true
}

/// The later of two optional lower bounds: the one that admits less.
pub open spec fn later_of(a: Option<i64>, b: Option<i64>) -> Option<i64> {
    match (a, b) {
        (Some(x), Some(y)) => Some(if x >= y { x } else { y }),
        (Some(x), None) => Some(x),
        (None, Some(y)) => Some(y),
        (None, None) => None,
    }
}

/// The earlier of two optional upper bounds: the one that admits less.
pub open spec fn earlier_of(a: Option<i64>, b: Option<i64>) -> Option<i64> {
    match (a, b) {
        (Some(x), Some(y)) => Some(if x <= y { x } else { y }),
        (Some(x), None) => Some(x),
        (None, Some(y)) => Some(y),
        (None, None) => None,
    }
}

/// The later of two optional lower bounds.
pub fn max_opt_i64(a: Option<i64>, b: Option<i64>) -> (r: Option<i64>)
    ensures
        r == later_of(a, b),
{
    match (a, b) {
        (Some(x), Some(y)) => Some(if x >= y { x } else { y }),
        (Some(x), None) => Some(x),
        (None, Some(y)) => Some(y),
        (None, None) => None,
    }
}

/// The earlier of two optional upper bounds.
pub fn min_opt_i64(a: Option<i64>, b: Option<i64>) -> (r: Option<i64>)
    ensures
        r == earlier_of(a, b),
{
    match (a, b) {
        (Some(x), Some(y)) => Some(if x <= y { x } else { y }),
        (Some(x), None) => Some(x),
        (None, Some(y)) => Some(y),
        (None, None) => None,
    }
}

/// A time lies within the tighter of two ranges exactly when it lies within
/// both.
pub proof fn lemma_tightened_range(
    ts: i64,
    s1: Option<i64>,
    e1: Option<i64>,
    s2: Option<i64>,
    e2: Option<i64>,
)
    ensures
        within_range(ts, later_of(s1, s2), earlier_of(e1, e2)) <==> within_range(ts, s1, e1)
            && within_range(ts, s2, e2),
{
}

/// The code of `c` with the ASCII capitals mapped to their small letters.
pub open spec fn ascii_fold(c: char) -> u32 {
    if 'A' <= c <= 'Z' {
        (c as u32 + 32) as u32
    } else {
        c as u32
    }
}

/// The code of `c` with the ASCII capitals mapped to their small letters.
pub fn fold_ascii(c: char) -> (r: u32)
    ensures
        r == ascii_fold(c),
{
    if c >= 'A' && c <= 'Z' {
        c as u32 + 32
    } else {
        c as u32
    }
}

/// Whether `text` begins with `prefix`, the case of ASCII letters set aside.
pub open spec fn has_prefix_ci(text: Seq<char>, prefix: Seq<char>) -> bool {
    prefix.len() <= text.len() && forall|i: int|
        0 <= i < prefix.len() ==> ascii_fold(#[trigger] text[i]) == ascii_fold(prefix[i])
}

/// What follows `prefix` in `text`, where `text` begins with it, the case of
/// ASCII letters set aside.
pub fn strip_prefix_case_insensitive(text: &Vec<char>, prefix: &Vec<char>) -> (r: Option<
    Vec<char>,
>)
    ensures
        r is Some <==> has_prefix_ci(text@, prefix@),
        r matches Some(rest) ==> rest@ == text@.skip(prefix@.len() as int),
{
    if text.len() < prefix.len() {
        return None;
    }
    let mut i: usize = 0;
    while i < prefix.len()
        invariant
            i <= prefix.len() <= text.len(),
            forall|k: int| 0 <= k < i ==> ascii_fold(#[trigger] text@[k]) == ascii_fold(prefix@[k]),
        decreases prefix.len() - i,
    {
        if fold_ascii(text[i]) != fold_ascii(prefix[i]) {
            return None;
        }
        i += 1;
    }
    assert(text@.subrange(prefix@.len() as int, text@.len() as int) == text@.skip(
        prefix@.len() as int,
    ));
    Some(slice_of(text, prefix.len(), text.len()))
}

/// The two ends of a time range, either of which may be open.
pub struct TimeBounds {
    pub start: Option<i64>,
    pub end: Option<i64>,
}

/// The range that `value` stands for when it is written behind `time=`: from
/// the first to the second time of `A..B`, split at its first `..`, or the
/// whole of a single date or instant. `None` where a time does not read.
pub open spec fn span_bounds(value: Seq<char>) -> Option<TimeBounds> {
    let at = find_from(value, seq!['.', '.'], 0);
    let first = if at != -1 {
        value.take(at)
    } else {
        value
    };
    let second = if at != -1 {
        value.skip(at + 2)
    } else {
        value
    };
    let start = secs_of(first, DateBoundKind::Start);
    let end = secs_of(second, DateBoundKind::End);
    if start is Some && end is Some {
        Some(TimeBounds { start, end })
    } else {
        None
    }
}

/// The bounds that a word of the query carries, where it is a time
/// expression: `time>=V`, `time<=V`, `time=A..B` or `time=V`, with every
/// time readable. Any other word is text to search for.
pub open spec fn word_bounds(word: Seq<char>) -> Option<TimeBounds> {
    if has_prefix_ci(word, "time>="@) {
        match secs_of(word.skip("time>="@.len() as int), DateBoundKind::Start) {
            Some(ts) => Some(TimeBounds { start: Some(ts), end: None }),
            None => None,
        }
    } else if has_prefix_ci(word, "time<="@) {
        match secs_of(word.skip("time<="@.len() as int), DateBoundKind::End) {
            Some(ts) => Some(TimeBounds { start: None, end: Some(ts) }),
            None => None,
        }
    } else if has_prefix_ci(word, "time="@) {
        span_bounds(word.skip("time="@.len() as int))
    } else {
        None
    }
}

/// What the words of a query amount to: the words that are text, in order,
/// and the range that the time expressions among them leave.
pub struct Sifted {
    pub kept: Seq<Seq<char>>,
    pub start: Option<i64>,
    pub end: Option<i64>,
}

/// Sifts the words of a query: each time expression tightens the range, each
/// other word is kept.
pub open spec fn sifted(words: Seq<Seq<char>>) -> Sifted
    decreases words.len(),
{
    if words.len() == 0 {
        Sifted { kept: Seq::empty(), start: None, end: None }
    } else {
        let before = sifted(words.drop_last());
        match word_bounds(words.last()) {
            Some(b) => Sifted {
                kept: before.kept,
                start: later_of(before.start, b.start),
                end: earlier_of(before.end, b.end),
            },
            None => Sifted { kept: before.kept.push(words.last()), ..before },
        }
    }
}

/// What a query asks for: the text to search for, in lower case, if any is
/// left, and the time range that the query itself sets.
pub struct QueryReading {
    pub text: Option<Seq<char>>,
    pub start: Option<i64>,
    pub end: Option<i64>,
}

/// The reading of a query. A missing or blank query asks for nothing.
pub open spec fn query_reading(query: Option<Seq<char>>) -> QueryReading {
    if query is None || trimmed(query->0).len() == 0 {
        QueryReading { text: None, start: None, end: None }
    } else {
        let s = sifted(words(trimmed(query->0)));
        let text = unicode_lowercase(trimmed(joined(s.kept, seq![' '])));
        QueryReading {
            text: if text.len() == 0 {
                None
            } else {
                Some(text)
            },
            start: s.start,
            end: s.end,
        }
    }
}

/// The range that `value` stands for behind `time=`.
fn read_span(value: &Vec<char>) -> (r: Option<(i64, i64)>)
    ensures
        r is Some <==> span_bounds(value@) is Some,
        r matches Some(p) ==> span_bounds(value@) == Some(
            TimeBounds { start: Some(p.0), end: Some(p.1) },
        ),
{
    let mut dots: Vec<char> = Vec::new();
    dots.push('.');
    dots.push('.');
    assert(dots@ == seq!['.', '.']);
    let n = value.len();
    let (start, end) = match find(value, &dots) {
        Some(at) => {
            proof {
                lemma_find_from(value@, dots@, 0);
                assert(occurs_at(value@, dots@, at as int));
                assert(dots@.len() == 2);
                assert(value@.subrange(0, at as int) == value@.take(at as int));
                assert(value@.subrange(at + 2, n as int) == value@.skip(at + 2));
            }
            let first = slice_of(value, 0, at);
            let second = slice_of(value, at + 2, n);
            match read_secs(&first, DateBoundKind::Start) {
                Some(a) => (Some(a), read_secs(&second, DateBoundKind::End)),
                None => (None, None),
            }
        },
        None => match read_secs(value, DateBoundKind::Start) {
            Some(a) => (Some(a), read_secs(value, DateBoundKind::End)),
            None => (None, None),
        },
    };
    match (start, end) {
        (Some(a), Some(b)) => Some((a, b)),
        _ => None,
    }
}

/// The bounds that a word of the query carries, where it is a time
/// expression.
fn read_word_bounds(word: &Vec<char>) -> (r: Option<(Option<i64>, Option<i64>)>)
    ensures
        r is Some <==> word_bounds(word@) is Some,
        r matches Some(p) ==> word_bounds(word@) == Some(TimeBounds { start: p.0, end: p.1 }),
{
    let from = chars_of("time>=");
    let until = chars_of("time<=");
    let exact = chars_of("time=");
    if let Some(v) = strip_prefix_case_insensitive(word, &from) {
        return match read_secs(&v, DateBoundKind::Start) {
            Some(ts) => Some((Some(ts), None)),
            None => None,
        };
    }
    if let Some(v) = strip_prefix_case_insensitive(word, &until) {
        return match read_secs(&v, DateBoundKind::End) {
            Some(ts) => Some((None, Some(ts))),
            None => None,
        };
    }
    if let Some(v) = strip_prefix_case_insensitive(word, &exact) {
        return match read_span(&v) {
            Some(p) => Some((Some(p.0), Some(p.1))),
            None => None,
        };
    }
    None
}

/// Whether an executable reading of a query is the given one.
pub open spec fn query_is(r: (Option<String>, Option<i64>, Option<i64>), m: QueryReading) -> bool {
    crate::text::opt_text(r.0) == m.text && r.1 == m.start && r.2 == m.end
}

/// Reads the query of a recall request: the text to search for, in lower
/// case, and the start and the end of the time range that the query sets.
///
/// The query is split into words at white space. A word that is a time
/// expression with a readable time tightens the range and is left out of the
/// text; every other word, a time expression that does not read among them,
/// is part of the text.
pub fn parse_query_time_expr(query: Option<&str>) -> (r: (Option<String>, Option<i64>, Option<i64>))
    ensures
        query_is(
            r,
            query_reading(
                match query {
                    Some(q) => Some(q@),
                    None => None,
                },
            ),
        ),
{
    let q = match query {
        Some(q) => trim(&chars_of(q)),
        None => { return (None, None, None); },
    };
    if q.len() == 0 {
        return (None, None, None);
    }
    let tokens = split_words(&q);
    let mut start: Option<i64> = None;
    let mut end: Option<i64> = None;
    let mut kept: Vec<Vec<char>> = Vec::new();
    let mut i: usize = 0;
    assert(rows(tokens@).take(0) == Seq::<Seq<char>>::empty());
    while i < tokens.len()
        invariant
            i <= tokens.len(),
            sifted(rows(tokens@).take(i as int)).kept == rows(kept@),
            sifted(rows(tokens@).take(i as int)).start == start,
            sifted(rows(tokens@).take(i as int)).end == end,
        decreases tokens.len() - i,
    {
        proof {
            assert(rows(tokens@).take(i + 1).drop_last() == rows(tokens@).take(i as int));
            assert(rows(tokens@).take(i + 1).last() == tokens@[i as int]@);
        }
        match read_word_bounds(&tokens[i]) {
            Some(b) => {
                start = max_opt_i64(start, b.0);
                end = min_opt_i64(end, b.1);
            },
            None => {
                let ghost before = rows(kept@);
                kept.push(tokens[i].clone());
                assert(kept@.last()@ == tokens@[i as int]@);
                assert(rows(kept@) == before.push(tokens@[i as int]@));
            },
        }
        i += 1;
    }
    assert(rows(tokens@).take(tokens.len() as int) == rows(tokens@));
    let mut space: Vec<char> = Vec::new();
    space.push(' ');
    assert(space@ == seq![' ']);
    let text = lowercase(&trim(&join(&kept, &space)));
    if text.len() == 0 {
        (None, start, end)
    } else {
        (Some(string_of(&text)), start, end)
    }
}

} // verus!
