//! Keyword normalization, and the detector that keeps dates and times out of
//! the keyword vocabulary.

use vstd::prelude::*;
use vstd::string::*;
use crate::text::{
    chars_of, compact, compacted, find, find_from, lemma_find_from, lowercase, occurs_at,
    slice_of, string_of, texts, trim, trimmed, unicode_lowercase,
};
use crate::order::{lemma_ranked, lemma_ranked_contains, rank, ranked, views, Ranked};
use crate::time::{is_time_text, time_reading, DateBoundKind};

verus! {

/// Whether `c` is one of the ASCII digits.
pub open spec fn is_digit(c: char) -> bool {
    '0' <= c <= '9'
}

/// Whether every character of `s` is an ASCII digit.
pub open spec fn all_digits(s: Seq<char>) -> bool {
    forall|i: int| 0 <= i < s.len() ==> is_digit(#[trigger] s[i])
}

/// The number that a text of ASCII digits writes in base ten.
pub open spec fn digits_value(s: Seq<char>) -> nat
    decreases s.len(),
{
    if s.len() == 0 {
        0
    } else {
        digits_value(s.drop_last()) * 10 + (s.last() as u32 - 48) as nat
    }
}

/// Whether `s` is a non-empty text of digits that writes a number in
/// `1..=max`.
pub open spec fn counts_within(s: Seq<char>, max: nat) -> bool {
    s.len() > 0 && all_digits(s) && 1 <= digits_value(s) <= max
}

/// A longer text of digits never writes a smaller number than its prefix.
pub proof fn lemma_digits_value_grows(s: Seq<char>, k: int)
    requires
        0 <= k <= s.len(),
        all_digits(s),
    ensures
        digits_value(s.take(k)) <= digits_value(s),
    decreases s.len() - k,
{
    if k < s.len() {
        lemma_digits_value_grows(s, k + 1);
        assert(s.take(k + 1).drop_last() == s.take(k));
        assert(is_digit(s[k]));
    } else {
        assert(s.take(k) == s);
    }
}

/// Reads `v[from..to]` as a number in `1..=max`.
fn read_count(v: &Vec<char>, from: usize, to: usize, max: u32) -> (r: Option<u32>)
    requires
        from <= to <= v.len(),
        max <= 9999,
    ensures
        r is Some <==> counts_within(v@.subrange(from as int, to as int), max as nat),
        r matches Some(n) ==> n == digits_value(v@.subrange(from as int, to as int)),
{
    let ghost s = v@.subrange(from as int, to as int);
    if from == to {
        return None;
    }
    let mut acc: u32 = 0;
    let mut i: usize = from;
    assert(s.take(0) == Seq::<char>::empty());
    while i < to
        invariant
            from <= i <= to <= v.len(),
            s == v@.subrange(from as int, to as int),
            all_digits(s.take(i - from)),
            acc == digits_value(s.take(i - from)),
            acc <= max <= 9999,
        decreases to - i,
    {
        let c = v[i];
        assert(s[i - from] == c);
        if !(c >= '0' && c <= '9') {
            assert(!is_digit(s[i - from]));
            return None;
        }
        proof {
            assert(s.take(i - from + 1).drop_last() == s.take(i - from));
            assert(s.take(i - from + 1).last() == c);
            assert forall|k: int| 0 <= k < i - from + 1 implies is_digit(
                #[trigger] s.take(i - from + 1)[k],
            ) by {
                if k < i - from {
                    assert(is_digit(s.take(i - from)[k]));
                }
            }
        }
        acc = acc * 10 + (c as u32 - 48);
        if acc > max {
            proof {
                if all_digits(s) {
                    lemma_digits_value_grows(s, i - from + 1);
                }
            }
            return None;
        }
        i += 1;
    }
    assert(s.take(to - from) == s);
    if acc >= 1 {
        Some(acc)
    } else {
        None
    }
}

/// Whether `text` is four digits writing a year in `1..=9999`, followed by
/// `年`.
pub open spec fn year_token(text: Seq<char>) -> bool {
    text.len() == 5 && text.last() == '年' && counts_within(text.drop_last(), 9999)
}

/// Whether `text` is digits writing a month in `1..=12`, followed by `月`.
pub open spec fn month_token(text: Seq<char>) -> bool {
    text.len() > 0 && text.last() == '月' && counts_within(text.drop_last(), 12)
}

/// Whether `text` is digits writing a day in `1..=31`, followed by `日`.
pub open spec fn day_token(text: Seq<char>) -> bool {
    text.len() > 0 && text.last() == '日' && counts_within(text.drop_last(), 31)
}

/// Reads `text` as digits followed by `unit`, the digits writing a number in
/// `1..=max`.
fn is_unit_token(text: &Vec<char>, unit: char, max: u32) -> (r: bool)
    requires
        max <= 9999,
    ensures
        r == (text@.len() > 0 && text@.last() == unit && counts_within(
            text@.drop_last(),
            max as nat,
        )),
{
    let n = text.len();
    if n == 0 || text[n - 1] != unit {
        return false;
    }
    assert(text@.subrange(0, n - 1) == text@.drop_last());
    read_count(text, 0, n - 1, max).is_some()
}

/// Whether `text` is a four-digit year followed by `年`.
pub fn is_year_token_zh(text: &Vec<char>) -> (r: bool)
    ensures
        r == year_token(text@),
{
    text.len() == 5 && is_unit_token(text, '年', 9999)
}

/// Whether `text` is a month number followed by `月`.
pub fn is_month_token_zh(text: &Vec<char>) -> (r: bool)
    ensures
        r == month_token(text@),
{
    is_unit_token(text, '月', 12)
}

/// Whether `text` is a day number followed by `日`.
pub fn is_day_token_zh(text: &Vec<char>) -> (r: bool)
    ensures
        r == day_token(text@),
{
    is_unit_token(text, '日', 31)
}

/// Whether `text` is a year, `年`, a month, `月`, a day and `日`, with the
/// three marks at positions `i`, `j` and `k` and nothing after the last.
pub open spec fn ymd_zh_at(text: Seq<char>, i: int, j: int, k: int) -> bool {
    &&& 0 <= i < j < k
    &&& k == text.len() - 1
    &&& text[i] == '年'
    &&& text[j] == '月'
    &&& text[k] == '日'
    &&& counts_within(text.subrange(0, i), 9999)
    &&& counts_within(text.subrange(i + 1, j), 12)
    &&& counts_within(text.subrange(j + 1, k), 31)
}

/// Whether `text` is a date of the form `YYYY年M月D日`.
pub open spec fn ymd_zh(text: Seq<char>) -> bool {
    exists|i: int, j: int, k: int| ymd_zh_at(text, i, j, k)
}

/// The first position of `c` in `v[from..]`, or the length of `v`.
fn position_of(v: &Vec<char>, c: char, from: usize) -> (r: usize)
    requires
        from <= v.len(),
    ensures
        from <= r <= v.len(),
        r < v.len() ==> v@[r as int] == c,
        forall|k: int| from <= k < r ==> v@[k] != c,
{
    let mut i: usize = from;
    while i < v.len() && v[i] != c
        invariant
            from <= i <= v.len(),
            forall|k: int| from <= k < i ==> v@[k] != c,
        decreases v.len() - i,
    {
        i += 1;
    }
    i
}

/// Reads a date of the form `YYYY年M月D日`: year in `1..=9999`, month in
/// `1..=12`, day in `1..=31`, and nothing after `日`.
pub fn parse_ymd_zh(text: &Vec<char>) -> (r: Option<(i32, u32, u32)>)
    ensures
        r is Some <==> ymd_zh(text@),
        forall|i: int, j: int, k: int| #[trigger]
            ymd_zh_at(text@, i, j, k) ==> r == Some(
                (
                    digits_value(text@.subrange(0, i)) as i32,
                    digits_value(text@.subrange(i + 1, j)) as u32,
                    digits_value(text@.subrange(j + 1, k)) as u32,
                ),
            ),
{
    let n = text.len();
    let i = position_of(text, '年', 0);
    proof {
        // In any reading, the year mark is the first one: digits stand before it.
        assert forall|a: int, b: int, c: int| ymd_zh_at(text@, a, b, c) implies a == i by {
            if a < i {
                assert(text@[a] != '年');
            }
            if i < a {
                assert(is_digit(text@.subrange(0, a)[i as int]));
            }
        }
    }
    if i >= n {
        return None;
    }
    let j = position_of(text, '月', i + 1);
    proof {
        assert forall|a: int, b: int, c: int| ymd_zh_at(text@, a, b, c) implies b == j by {
            if b < j {
                assert(text@[b] != '月');
            }
            if j < b {
                assert(is_digit(text@.subrange(a + 1, b)[j - a - 1]));
            }
        }
    }
    if j >= n {
        return None;
    }
    let k = position_of(text, '日', j + 1);
    proof {
        assert forall|a: int, b: int, c: int| ymd_zh_at(text@, a, b, c) implies c == k by {
            if c < k {
                assert(text@[c] != '日');
            }
            if k < c {
                assert(is_digit(text@.subrange(b + 1, c)[k - b - 1]));
            }
        }
    }
    if k >= n || k + 1 != n {
        return None;
    }
    let y = read_count(text, 0, i, 9999);
    let m = read_count(text, i + 1, j, 12);
    let d = read_count(text, j + 1, k, 31);
    match (y, m, d) {
        (Some(y), Some(m), Some(d)) => {
            assert(ymd_zh_at(text@, i as int, j as int, k as int));
            Some((y as i32, m, d))
        },
        _ => None,
    }
}

/// Whether `c` is `A..B`, split at the first `..`, with `A` readable as a
/// start of a range and `B` as its end.
pub open spec fn range_like(c: Seq<char>) -> bool {
    let at = find_from(c, seq!['.', '.'], 0);
    at != -1 && time_reading(c.take(at), DateBoundKind::Start) is Ok && time_reading(
        c.skip(at + 2),
        DateBoundKind::End,
    ) is Ok
}

/// Whether a keyword is really a date or a time.
///
/// White space inside the keyword is ignored. What is left is time-like when
/// it reads as a time, as a range of two times, as a date written with
/// `年`, `月` and `日`, or as a lone year, month or day so written.
pub open spec fn time_like(text: Seq<char>) -> bool {
    let c = compacted(text);
    c.len() > 0 && (time_reading(c, DateBoundKind::Start) is Ok || range_like(c) || ymd_zh(c)
        || year_token(c) || month_token(c) || day_token(c))
}

/// The two sides of `c` around its first `..`, if it has one.
fn split_range(c: &Vec<char>) -> (r: Option<(Vec<char>, Vec<char>)>)
    ensures
        r is None <==> find_from(c@, seq!['.', '.'], 0) == -1,
        r matches Some(p) ==> {
            let at = find_from(c@, seq!['.', '.'], 0);
            p.0@ == c@.take(at) && p.1@ == c@.skip(at + 2)
        },
{
    let mut dots: Vec<char> = Vec::new();
    dots.push('.');
    dots.push('.');
    assert(dots@ == seq!['.', '.']);
    match find(c, &dots) {
        Some(at) => {
            let n = c.len();
            proof {
                lemma_find_from(c@, dots@, 0);
                assert(occurs_at(c@, dots@, at as int));
                assert(dots@.len() == 2);
                assert(c@.subrange(0, at as int) == c@.take(at as int));
                assert(c@.subrange(at + 2, c@.len() as int) == c@.skip(at + 2));
            }
            Some((slice_of(c, 0, at), slice_of(c, at + 2, n)))
        },
        None => None,
    }
}

/// Whether a keyword is really a date or a time.
pub fn is_time_like_keyword(text: &str) -> (r: bool)
    ensures
        r == time_like(text@),
{
    let raw = chars_of(text);
    let c = compact(&raw);
    if c.len() == 0 {
        return false;
    }
    let whole = string_of(&c);
    if is_time_text(whole.as_str(), DateBoundKind::Start) {
        return true;
    }
    let ranged = match split_range(&c) {
        Some((a, b)) => {
            let first = string_of(&a);
            let second = string_of(&b);
            is_time_text(first.as_str(), DateBoundKind::Start) && is_time_text(
                second.as_str(),
                DateBoundKind::End,
            )
        },
        None => false,
    };
    if ranged {
        return true;
    }
    if parse_ymd_zh(&c).is_some() {
        return true;
    }
    is_year_token_zh(&c) || is_month_token_zh(&c) || is_day_token_zh(&c)
}

/// The normal form of one keyword: trimmed and in lower case. A blank
/// keyword, a time-like one, and one that is empty in lower case have none.
pub open spec fn normal_form(kw: Seq<char>) -> Option<Seq<char>> {
    let t = trimmed(kw);
    if t.len() == 0 || time_like(t) {
        None
    } else {
        let n = unicode_lowercase(t);
        if n.len() == 0 {
            None
        } else {
            Some(n)
        }
    }
}

/// The normal forms of the given keywords, each once, in the order in which
/// they first appear.
pub open spec fn normalized(input: Seq<Seq<char>>) -> Seq<Seq<char>>
    decreases input.len(),
{
    if input.len() == 0 {
        Seq::empty()
    } else {
        let before = normalized(input.drop_last());
        match normal_form(input.last()) {
            Some(n) => if before.contains(n) {
                before
            } else {
                before.push(n)
            },
            None => before,
        }
    }
}

/// The normal form of one keyword.
pub fn normalize_keyword(kw: &str) -> (r: Option<String>)
    ensures
        crate::text::opt_text(r) == normal_form(kw@),
{
    let raw = chars_of(kw);
    let t = trim(&raw);
    if t.len() == 0 {
        return None;
    }
    let shown = string_of(&t);
    if is_time_like_keyword(shown.as_str()) {
        return None;
    }
    let n = lowercase(&t);
    if n.len() == 0 {
        return None;
    }
    Some(string_of(&n))
}

/// Whether `kw` is among `list`.
pub fn has_keyword(list: &Vec<String>, kw: &String) -> (r: bool)
    ensures
        r == texts(list@).contains(kw@),
{
    let mut i: usize = 0;
    while i < list.len()
        invariant
            i <= list.len(),
            forall|k: int| 0 <= k < i ==> list@[k]@ != kw@,
        decreases list.len() - i,
    {
        if list[i] == *kw {
            assert(texts(list@)[i as int] == kw@);
            return true;
        }
        i += 1;
    }
    assert forall|k: int| 0 <= k < texts(list@).len() implies texts(list@)[k] != kw@ by {
        assert(texts(list@)[k] == list@[k]@);
    }
    false
}

/// Trims and lowercases the keywords, drops the blank and the time-like
/// ones, and keeps each remaining keyword once, where it first appears.
pub fn normalize_keywords(keywords: Vec<String>) -> (r: Vec<String>)
    ensures
        texts(r@) == normalized(texts(keywords@)),
{
    let mut out: Vec<String> = Vec::new();
    let mut i: usize = 0;
    assert(texts(keywords@).take(0) == Seq::<Seq<char>>::empty());
    while i < keywords.len()
        invariant
            i <= keywords.len(),
            texts(out@) == normalized(texts(keywords@).take(i as int)),
        decreases keywords.len() - i,
    {
        proof {
            assert(texts(keywords@).take(i + 1).drop_last() == texts(keywords@).take(i as int));
            assert(texts(keywords@).take(i + 1).last() == keywords@[i as int]@);
        }
        match normalize_keyword(keywords[i].as_str()) {
            Some(n) => {
                if !has_keyword(&out, &n) {
                    let ghost before = texts(out@);
                    let ghost shown = n@;
                    out.push(n);
                    assert(texts(out@) == before.push(shown));
                }
            },
            None => {},
        }
        i += 1;
    }
    assert(texts(keywords@).take(keywords.len() as int) == texts(keywords@));
    out
}

/// Whether no text occurs twice in `s`.
pub open spec fn distinct(s: Seq<Seq<char>>) -> bool {
    forall|i: int, j: int| 0 <= i < j < s.len() ==> s[i] != s[j]
}

/// Normalization never yields a keyword twice, and never an empty one.
pub proof fn lemma_normalized_distinct(input: Seq<Seq<char>>)
    ensures
        distinct(normalized(input)),
        forall|i: int| 0 <= i < normalized(input).len() ==> (#[trigger] normalized(input)[i]).len() > 0,
        normalized(input).len() <= input.len(),
    decreases input.len(),
{
    if input.len() > 0 {
        lemma_normalized_distinct(input.drop_last());
    }
}

/// Every normalized keyword is the normal form of one of the given ones.
pub proof fn lemma_normalized_members(input: Seq<Seq<char>>, i: int)
    requires
        0 <= i < normalized(input).len(),
    ensures
        exists|k: int| 0 <= k < input.len() && normal_form(#[trigger] input[k]) == Some(normalized(input)[i]),
    decreases input.len(),
{
    if input.len() > 0 {
        let before = normalized(input.drop_last());
        if i < before.len() {
            lemma_normalized_members(input.drop_last(), i);
            let k = choose|k: int|
                0 <= k < input.drop_last().len() && normal_form(#[trigger] input.drop_last()[k])
                    == Some(before[i]);
            assert(input[k] == input.drop_last()[k]);
        } else {
            assert(normal_form(input[input.len() - 1]) == Some(normalized(input)[i]));
        }
    }
}

/// A list that is already normal is left as it is: where every keyword is
/// its own normal form and none occurs twice, normalization changes nothing.
pub proof fn lemma_normalized_fixed(input: Seq<Seq<char>>)
    requires
        distinct(input),
        forall|i: int| 0 <= i < input.len() ==> normal_form(#[trigger] input[i]) == Some(input[i]),
    ensures
        normalized(input) == input,
    decreases input.len(),
{
    if input.len() > 0 {
        let rest = input.drop_last();
        assert forall|i: int| 0 <= i < rest.len() implies normal_form(#[trigger] rest[i]) == Some(
            rest[i],
        ) by {
            assert(rest[i] == input[i]);
        }
        lemma_normalized_fixed(rest);
        assert(normal_form(input.last()) == Some(input.last()));
        assert(!rest.contains(input.last()));
        assert(rest.push(input.last()) == input);
    }
}

/// Normalizing a second time changes nothing, for every list whose normal
/// forms are stable, that is, are their own normal forms: trimming a normal
/// form, testing it for a time and lowercasing it again leave it as it is.
pub proof fn lemma_normalize_idempotent(input: Seq<Seq<char>>)
    requires
        forall|k: int|
            0 <= k < input.len() && normal_form(#[trigger] input[k]) is Some ==> normal_form(
                normal_form(input[k])->0,
            ) == normal_form(input[k]),
    ensures
        normalized(normalized(input)) == normalized(input),
{
    let once = normalized(input);
    lemma_normalized_distinct(input);
    assert forall|i: int| 0 <= i < once.len() implies normal_form(#[trigger] once[i]) == Some(
        once[i],
    ) by {
        lemma_normalized_members(input, i);
        let k = choose|k: int|
            0 <= k < input.len() && normal_form(#[trigger] input[k]) == Some(once[i]);
        assert(normal_form(normal_form(input[k])->0) == normal_form(input[k]));
    }
    lemma_normalized_fixed(once);
}

/// Whether `a` comes no later than `b` in the order of the dictionary, read
/// from position `from` on: the first character in which they differ
/// decides, by its code, and a text comes before its extensions.
pub open spec fn lex_le(a: Seq<char>, b: Seq<char>, from: int) -> bool
    decreases a.len() - from,
{
    if from < 0 || from >= a.len() {
        true
    } else if from >= b.len() {
        false
    } else if a[from] != b[from] {
        a[from] < b[from]
    } else {
        lex_le(a, b, from + 1)
    }
}

/// Whether keyword `a` may be listed before keyword `b`: the shorter
/// keyword first, by its number of characters, and of two keywords of one
/// length the one that comes first in the dictionary.
pub open spec fn keyword_le(a: Seq<char>, b: Seq<char>) -> bool {
    a.len() < b.len() || (a.len() == b.len() && lex_le(a, b, 0))
}

/// Of two texts one comes no later than the other.
pub proof fn lemma_lex_total(a: Seq<char>, b: Seq<char>, from: int)
    requires
        0 <= from,
    ensures
        lex_le(a, b, from) || lex_le(b, a, from),
    decreases a.len() - from,
{
    if from < a.len() && from < b.len() && a[from] == b[from] {
        lemma_lex_total(a, b, from + 1);
    }
}

/// The order of the dictionary is transitive.
pub proof fn lemma_lex_transitive(a: Seq<char>, b: Seq<char>, c: Seq<char>, from: int)
    requires
        0 <= from,
        lex_le(a, b, from),
        lex_le(b, c, from),
    ensures
        lex_le(a, c, from),
    decreases a.len() - from,
{
    if from < a.len() && from < b.len() && from < c.len() && a[from] == b[from] && b[from]
        == c[from] {
        lemma_lex_transitive(a, b, c, from + 1);
    }
}

/// Whether `a` comes no later than `b` in the order of the dictionary.
pub fn lex_no_later(a: &Vec<char>, b: &Vec<char>) -> (r: bool)
    ensures
        r == lex_le(a@, b@, 0),
{
    let mut i: usize = 0;
    while i < a.len()
        invariant
            i <= a.len(),
            lex_le(a@, b@, 0) == lex_le(a@, b@, i as int),
        decreases a.len() - i,
    {
        if i >= b.len() {
            return false;
        }
        if a[i] != b[i] {
            return a[i] < b[i];
        }
        i += 1;
    }
    true
}

/// A keyword, held by its characters so that it can be ranked.
pub struct Word {
    pub chars: Vec<char>,
}

impl View for Word {
    type V = Seq<char>;

    open spec fn view(&self) -> Seq<char> {
        self.chars@
    }
}

impl Ranked for Word {
    open spec fn may_precede(a: Seq<char>, b: Seq<char>) -> bool {
        keyword_le(a, b)
    }

    fn precedes(&self, other: &Self) -> (r: bool) {
        if self.chars.len() != other.chars.len() {
            self.chars.len() < other.chars.len()
        } else {
            lex_no_later(&self.chars, &other.chars)
        }
    }

    proof fn lemma_total(a: Seq<char>, b: Seq<char>) {
        lemma_lex_total(a, b, 0);
    }

    proof fn lemma_transitive(a: Seq<char>, b: Seq<char>, c: Seq<char>) {
        if a.len() == b.len() && b.len() == c.len() {
            lemma_lex_transitive(a, b, c, 0);
        }
    }
}

/// The keywords in listing order: shorter ones first, and those of one
/// length in the order of the dictionary.
pub open spec fn listed(keywords: Seq<Seq<char>>) -> Seq<Seq<char>> {
    ranked::<Word>(keywords)
}

/// Puts keywords in listing order.
pub fn sort_keywords(list: &Vec<String>) -> (r: Vec<String>)
    ensures
        texts(r@) == listed(texts(list@)),
{
    let mut words: Vec<Word> = Vec::new();
    let mut i: usize = 0;
    while i < list.len()
        invariant
            i <= list.len(),
            views(words@) == texts(list@).take(i as int),
        decreases list.len() - i,
    {
        let ghost before = views(words@);
        words.push(Word { chars: chars_of(list[i].as_str()) });
        assert(views(words@) == before.push(list@[i as int]@));
        assert(texts(list@).take(i + 1) == texts(list@).take(i as int).push(list@[i as int]@));
        i += 1;
    }
    assert(texts(list@).take(list.len() as int) == texts(list@));
    let sorted = rank(words);
    let mut out: Vec<String> = Vec::new();
    let mut j: usize = 0;
    while j < sorted.len()
        invariant
            j <= sorted.len(),
            texts(out@) == views(sorted@).take(j as int),
        decreases sorted.len() - j,
    {
        let ghost before = texts(out@);
        out.push(string_of(&sorted[j].chars));
        assert(texts(out@) == before.push(sorted@[j as int]@));
        assert(views(sorted@).take(j + 1) == views(sorted@).take(j as int).push(
            sorted@[j as int]@,
        ));
        j += 1;
    }
    assert(views(sorted@).take(sorted.len() as int) == views(sorted@));
    out
}

/// A listing of keywords that differ from each other ascends strictly, so
/// it does not depend on the order in which the keywords were given.
pub proof fn lemma_listed_strict(keywords: Seq<Seq<char>>)
    requires
        distinct(keywords),
    ensures
        listed(keywords).len() == keywords.len(),
        forall|x: Seq<char>| listed(keywords).contains(x) <==> keywords.contains(x),
        forall|i: int, j: int|
            #![trigger listed(keywords)[i], listed(keywords)[j]]
            0 <= i < j < listed(keywords).len() ==> keyword_le(
                listed(keywords)[i],
                listed(keywords)[j],
            ) && listed(keywords)[i] != listed(keywords)[j],
{
    let out = listed(keywords);
    lemma_ranked::<Word>(keywords);
    assert forall|x: Seq<char>| out.contains(x) <==> keywords.contains(x) by {
        lemma_ranked_contains::<Word>(keywords, x);
    }
    assert(keywords.no_duplicates());
    keywords.lemma_multiset_has_no_duplicates();
    out.lemma_multiset_has_no_duplicates_conv();
}

} // verus!
