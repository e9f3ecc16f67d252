//! Reading time texts: RFC 3339 instants and calendar dates.
//!
//! The calendar itself is chrono's. This module decides which reading of a
//! text applies and what the canonical form and the Unix time of the result
//! are.

use vstd::prelude::*;
use vstd::string::*;
use crate::error::MemoryError;
use crate::keywords::is_digit;
use crate::text::{chars_of, string_of, trim, trimmed};

verus! {

/// Which end of a day a bare calendar date stands for.
#[derive(Debug, Clone, Copy, PartialEq, Eq, Structural)]
pub enum DateBoundKind {
    /// 00:00:00 UTC of the date.
    Start,
    /// 23:59:59 UTC of the date.
    End,
}

/// A point in time as the store keeps it.
pub struct Moment {
    /// Unix time in seconds.
    pub secs: i64,
    /// The canonical text of the moment.
    pub text: Seq<char>,
}

/// The moment that an executable pair of seconds and text stands for.
pub open spec fn moment_of(p: (i64, String)) -> Moment {
    let (secs, text) = p;
    Moment { secs, text: text@ }
}

/// The moment that an optional executable pair stands for.
pub open spec fn opt_moment(r: Option<(i64, String)>) -> Option<Moment> {
    match r {
        Some(p) => Some(moment_of(p)),
        None => None,
    }
}

/// The instant that an RFC 3339 text denotes, as chrono reads it: the Unix
/// time in seconds, and the same instant written at UTC with whole seconds
/// and a trailing `Z`. `None` where chrono does not accept the text.
pub uninterp spec fn rfc3339_instant(text: Seq<char>) -> Option<Moment>;

/// The Unix time in seconds of `hour:min:sec` UTC on the calendar date that
/// `text` denotes under chrono's format `%Y-%m-%d`. `None` where chrono does
/// not accept the text as such a date.
pub uninterp spec fn date_seconds(text: Seq<char>, hour: u32, min: u32, sec: u32) -> Option<i64>;

/// Reads an RFC 3339 text with chrono: `DateTime::parse_from_rfc3339`, and
/// of the instant that it returns, taken to UTC by `with_timezone`, the
/// `timestamp` and the text that `to_rfc3339_opts` writes with whole seconds
/// and `Z`.
///
/// The contract gives the outcome its name: the same text always yields the
/// same instant, or is always refused. Of the text that chrono writes it
/// says what `to_rfc3339_opts` shows for an instant at UTC: a date, a time
/// of day and a final `Z`, twenty characters at the least.
#[verifier::external_body]
fn read_rfc3339(text: &str) -> (r: Option<(i64, String)>)
    ensures
        opt_moment(r) == rfc3339_instant(text@),
        r matches Some(p) ==> p.1@.len() >= 20 && p.1@.last() == 'Z',
{
    match chrono::DateTime::parse_from_rfc3339(text) {
        Ok(parsed) => {
            let utc = parsed.with_timezone(&chrono::Utc);
            Some((utc.timestamp(), utc.to_rfc3339_opts(chrono::SecondsFormat::Secs, true)))
        },
        Err(_) => None,
    }
}

/// Reads a calendar date with chrono: `NaiveDate::parse_from_str` with the
/// format `%Y-%m-%d`, and of the date that it returns, the `timestamp` of
/// the given time of day at UTC.
///
/// `NaiveDate::and_hms_opt` refuses only an hour, minute or second out of
/// range, which `requires` leaves out; so the result is `None` exactly where
/// the text is not accepted as a date. The contract only gives the outcome
/// its name.
#[verifier::external_body]
fn read_date(text: &str, hour: u32, min: u32, sec: u32) -> (r: Option<i64>)
    requires
        hour < 24,
        min < 60,
        sec < 60,
    ensures
        r == date_seconds(text@, hour, min, sec),
{
    let date = match chrono::NaiveDate::parse_from_str(text, "%Y-%m-%d") {
        Ok(date) => date,
        Err(_) => { return None; },
    };
    let at = date.and_hms_opt(hour, min, sec)?;
    Some(at.and_utc().timestamp())
}

/// Whether every character of `s` is ASCII.
pub open spec fn ascii_only(s: Seq<char>) -> bool {
    forall|i: int| 0 <= i < s.len() ==> (#[trigger] s[i] as u32) < 128
}

/// Whether every character of `v` is ASCII.
pub fn is_ascii_text(v: &Vec<char>) -> (r: bool)
    ensures
        r == ascii_only(v@),
{
    let mut i: usize = 0;
    while i < v.len()
        invariant
            i <= v.len(),
            forall|k: int| 0 <= k < i ==> (#[trigger] v@[k] as u32) < 128,
        decreases v.len() - i,
    {
        if v[i] as u32 >= 128 {
            return false;
        }
        i += 1;
    }
    true
}

/// `text` with a lowercase `t` at position 10 and a lowercase final `z` put
/// in upper case; `None` where `text` is not ASCII or nothing changes.
pub open spec fn patched_case(text: Seq<char>) -> Option<Seq<char>> {
    if !ascii_only(text) {
        None
    } else {
        let a = if text.len() > 10 && text[10] == 't' {
            text.update(10, 'T')
        } else {
            text
        };
        let b = if a.len() > 0 && a.last() == 'z' {
            a.update(a.len() - 1, 'Z')
        } else {
            a
        };
        if b == text {
            None
        } else {
            Some(b)
        }
    }
}

/// Repairs the case of the `T` separator and the `Z` suffix of an RFC 3339
/// text that was lowercased on its way here.
pub fn patch_rfc3339_case(text: &Vec<char>) -> (r: Option<Vec<char>>)
    ensures
        r is Some <==> patched_case(text@) is Some,
        r matches Some(p) ==> p@ == patched_case(text@)->0,
{
    if !is_ascii_text(text) {
        return None;
    }
    let mut buf: Vec<char> = text.clone();
    let mut changed = false;
    if buf.len() > 10 && buf[10] == 't' {
        buf.set(10, 'T');
        changed = true;
    }
    let n = buf.len();
    if n > 0 && buf[n - 1] == 'z' {
        buf.set(n - 1, 'Z');
        changed = true;
    }
    if !changed {
        assert(buf@ == text@);
        return None;
    }
    proof {
        if text@.len() > 10 && text@[10] == 't' {
            assert(buf@[10] != text@[10]);
        } else {
            assert(buf@[n - 1] != text@[n - 1]);
        }
    }
    Some(buf)
}

/// The time of day that a bare date stands for.
pub open spec fn bound_time(bound: DateBoundKind) -> (u32, u32, u32) {
    match bound {
        DateBoundKind::Start => (0, 0, 0),
        DateBoundKind::End => (23, 59, 59),
    }
}

/// Whether `text` has the shape of a calendar date, `YYYY-MM-DD`: ten
/// characters, digits but for a `-` behind the year and behind the month.
pub open spec fn date_shaped(text: Seq<char>) -> bool {
    &&& text.len() == 10
    &&& text[4] == '-'
    &&& text[7] == '-'
    &&& forall|i: int| 0 <= i < 10 && i != 4 && i != 7 ==> is_digit(#[trigger] text[i])
}

/// Whether `text` has the shape of a calendar date, `YYYY-MM-DD`.
pub fn is_date_shaped(text: &Vec<char>) -> (r: bool)
    ensures
        r == date_shaped(text@),
{
    if text.len() != 10 {
        return false;
    }
    let mut i: usize = 0;
    while i < 10
        invariant
            i <= 10,
            text@.len() == 10,
            forall|k: int|
                0 <= k < i ==> if k == 4 || k == 7 {
                    #[trigger] text@[k] == '-'
                } else {
                    is_digit(text@[k])
                },
        decreases 10 - i,
    {
        let c = text[i];
        if i == 4 || i == 7 {
            if c != '-' {
                return false;
            }
        } else if !(c >= '0' && c <= '9') {
            return false;
        }
        i += 1;
    }
    assert(text@[4] == '-' && text@[7] == '-');
    true
}

/// The reading that applies, given how each way of reading the text came
/// out: the strict RFC 3339 reading first, then the RFC 3339 reading of the
/// case-patched text, then the calendar date.
pub open spec fn chosen_reading(
    strict: Option<Moment>,
    patched: Option<Moment>,
    date: Option<Moment>,
) -> Result<Moment, MemoryError> {
    if strict is Some {
        Ok(strict->0)
    } else if patched is Some {
        Ok(patched->0)
    } else if date is Some {
        Ok(date->0)
    } else {
        Err(MemoryError::UnsupportedTimeFormat)
    }
}

/// The reading of a trimmed text as a calendar date: the text must have the
/// shape `YYYY-MM-DD` and name a day of the calendar. The date stands for
/// its first or its last second, as `bound` says, and is its own canonical
/// form.
pub open spec fn date_reading(text: Seq<char>, bound: DateBoundKind) -> Option<Moment> {
    let clock = bound_time(bound);
    if date_shaped(text) {
        match date_seconds(text, clock.0, clock.1, clock.2) {
            Some(secs) => Some(Moment { secs, text }),
            None => None,
        }
    } else {
        None
    }
}

/// What a time text means: its Unix time in seconds and its canonical form.
///
/// The text is trimmed. A blank text is invalid. Else the text is read as an
/// RFC 3339 instant, as it stands or with the case of its `T` and `Z`
/// repaired; failing that, a text that has the shape `YYYY-MM-DD` is read as
/// a calendar date. Any other text is not supported.
pub open spec fn time_reading(input: Seq<char>, bound: DateBoundKind) -> Result<
    Moment,
    MemoryError,
> {
    let text = trimmed(input);
    if text.len() == 0 {
        Err(MemoryError::InvalidTime)
    } else {
        chosen_reading(
            rfc3339_instant(text),
            match patched_case(text) {
                Some(p) => rfc3339_instant(p),
                None => None,
            },
            date_reading(text, bound),
        )
    }
}

/// The mathematical reading that an executable reading stands for.
pub open spec fn reading_of(r: Result<(i64, String), MemoryError>) -> Result<Moment, MemoryError> {
    match r {
        Ok(p) => Ok(moment_of(p)),
        Err(e) => Err(e),
    }
}

/// Picks the reading that applies among the outcomes of the three ways of
/// reading a trimmed, non-empty time text.
pub fn choose_reading(
    strict: Option<(i64, String)>,
    patched: Option<(i64, String)>,
    date: Option<(i64, String)>,
) -> (r: Result<(i64, String), MemoryError>)
    ensures
        reading_of(r) == chosen_reading(opt_moment(strict), opt_moment(patched), opt_moment(date)),
{
    match strict {
        Some(found) => Ok(found),
        None => match patched {
            Some(found) => Ok(found),
            None => match date {
                Some(found) => Ok(found),
                None => Err(MemoryError::UnsupportedTimeFormat),
            },
        },
    }
}

/// Reads a time text.
///
/// The text is trimmed first. An RFC 3339 instant is converted to UTC and
/// written with whole seconds and `Z`; `bound` plays no part in it. A bare
/// calendar date must be written as `YYYY-MM-DD`; it stands for its first or
/// its last second, as `bound` says, and is its own canonical form.
pub fn parse_time_to_ts_and_canonical(input: &str, bound: DateBoundKind) -> (r: Result<
    (i64, String),
    MemoryError,
>)
    ensures
        reading_of(r) == time_reading(input@, bound),
        r matches Ok(p) ==> (date_shaped(trimmed(input@)) && p.1@ == trimmed(input@)) || (p.1@.len()
            >= 20 && p.1@.last() == 'Z'),
{
    let raw = chars_of(input);
    let text = trim(&raw);
    if text.len() == 0 {
        return Err(MemoryError::InvalidTime);
    }
    let plain = string_of(&text);
    let strict = read_rfc3339(plain.as_str());
    if strict.is_some() {
        return choose_reading(strict, None, None);
    }
    let patched = match patch_rfc3339_case(&text) {
        Some(p) => {
            let fixed = string_of(&p);
            read_rfc3339(fixed.as_str())
        },
        None => None,
    };
    if patched.is_some() {
        return choose_reading(None, patched, None);
    }
    let seconds = if is_date_shaped(&text) {
        match bound {
            DateBoundKind::Start => read_date(plain.as_str(), 0, 0, 0),
            DateBoundKind::End => read_date(plain.as_str(), 23, 59, 59),
        }
    } else {
        None
    };
    let date = match seconds {
        Some(secs) => Some((secs, plain)),
        None => None,
    };
    choose_reading(None, None, date)
}

/// Whether a time text can be read at all.
pub fn is_time_text(input: &str, bound: DateBoundKind) -> (r: bool)
    ensures
        r == time_reading(input@, bound) is Ok,
{
    parse_time_to_ts_and_canonical(input, bound).is_ok()
}

/// The seconds of a reading, where there is one.
pub open spec fn secs_of(input: Seq<char>, bound: DateBoundKind) -> Option<i64> {
    match time_reading(input, bound) {
        Ok(m) => Some(m.secs),
        Err(_) => None,
    }
}

/// The seconds that a time text reads as, if it reads.
pub fn read_secs(v: &Vec<char>, bound: DateBoundKind) -> (r: Option<i64>)
    ensures
        r == secs_of(v@, bound),
{
    let shown = string_of(v);
    match parse_time_to_ts_and_canonical(shown.as_str(), bound) {
        Ok(p) => Some(p.0),
        Err(_) => None,
    }
}

} // verus!
