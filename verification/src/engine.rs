//! The engine: the namespaces that are open, each under its canonical name,
//! and the clock and the identifiers that records are stamped with.

use vstd::prelude::*;
use vstd::string::*;
use crate::error::MemoryError;
use crate::index::IndexData;
use crate::log::{line_views, total_length, with_lines, LogLine};
use crate::model::{
    MemoryItem, MemoryItemView, RecallArgs, RecallResult, RememberArgs, RememberArgsView,
};
use crate::time::{read_secs, secs_of, DateBoundKind};
use crate::namespace::{resolved, StorePaths};
use crate::recall::{handed_out, plan_is, planned, recalled, record_views, RecallPlan};
use crate::store::{
    appended, prepared, resynced, NamespaceState, PendingMemory, RememberRecorded, SyncAction,
};
use crate::text::{chars_of, decimal, push_all, push_str, same_str, string_of, write_decimal};

verus! {

/// Reads the clock: the current time at UTC, written as RFC 3339 with whole
/// seconds and `Z`, and as Unix time in seconds.
///
/// This calls `chrono::Utc::now` and, on the instant that it returns,
/// `to_rfc3339_opts` and `timestamp`. Each call may return another time, so
/// the contract says only what holds of every outcome: chrono counts the
/// seconds from 1970 on, and the text that it writes has a date, a time of
/// day and a final `Z`, twenty characters at the least. Chrono gives up
/// where the clock of the machine stands before 1970.
#[verifier::external_body]
pub fn now_rfc3339_and_ts() -> (r: (String, i64))
    ensures
        r.1 >= 0,
        r.0@.len() >= 20,
        r.0@.last() == 'Z',
{
    let now = chrono::Utc::now();
    (now.to_rfc3339_opts(chrono::SecondsFormat::Secs, true), now.timestamp())
}

/// Reads the clock in the local time zone: the current time, written as RFC
/// 3339 with whole seconds, and the offset of the zone from UTC in seconds,
/// east counting as positive.
///
/// This calls `chrono::Local::now` and, on the instant that it returns,
/// `to_rfc3339_opts` and `offset().local_minus_utc()`. The result depends
/// on the time and on the zone of the machine, so the contract says only
/// what holds of every outcome: chrono keeps an offset within a day, and
/// the text that it writes has a date, a time of day and an offset, twenty
/// characters at the least.
#[verifier::external_body]
pub fn now_local_rfc3339_and_offset_seconds() -> (r: (String, i32))
    ensures
        -86_400 < r.1 < 86_400,
        r.0@.len() >= 20,
{
    let now = chrono::Local::now();
    (now.to_rfc3339_opts(chrono::SecondsFormat::Secs, true), now.offset().local_minus_utc())
}

/// Draws a fresh identifier for a record.
///
/// This calls `uuid::Uuid::new_v4` and writes the result in the hyphenated
/// form. The result is random, so the contract says only what holds of
/// every outcome: the hyphenated form has 36 characters. The call gives up
/// where the system has no random bytes to give.
#[verifier::external_body]
fn fresh_id() -> (r: String)
    ensures
        r@.len() == 36,
{
    uuid::Uuid::new_v4().to_string()
}

/// `n` written with at least two digits.
pub open spec fn two_digits(n: nat) -> Seq<char> {
    if n < 10 {
        seq!['0'] + decimal(n)
    } else {
        decimal(n)
    }
}

/// An offset from UTC in seconds, written as a sign, the hours and the
/// minutes: `+08:00`, `-03:30`. Seconds are dropped.
pub open spec fn offset_text(offset_seconds: i32) -> Seq<char> {
    let size: nat = if offset_seconds >= 0 {
        offset_seconds as nat
    } else {
        (-offset_seconds) as nat
    };
    seq![if offset_seconds >= 0 {
        '+'
    } else {
        '-'
    }] + two_digits(size / 3600) + seq![':'] + two_digits((size % 3600) / 60)
}

/// The whole minutes of an offset in seconds, rounded toward zero.
pub open spec fn offset_minutes(offset_seconds: i32) -> int {
    if offset_seconds >= 0 {
        offset_seconds as int / 60
    } else {
        -((-offset_seconds) as int / 60)
    }
}

/// What the engine reports of the current time.
#[derive(Debug, Clone)]
pub struct NowReport {
    pub utc_rfc3339: String,
    pub utc_ts: i64,
    pub local_rfc3339: String,
    pub local_offset_seconds: i32,
    pub local_offset_minutes: i32,
    /// The report in words.
    pub text: String,
}

/// The report of the current time in words.
pub open spec fn now_text(local: Seq<char>, offset_seconds: i32, utc: Seq<char>) -> Seq<char> {
    "当前时间："@ + local + "（本地，UTC"@ + offset_text(offset_seconds) + "）｜"@ + utc + "（UTC）"@
}

/// Appends `n` with at least two digits.
fn push_two_digits(out: &mut Vec<char>, n: usize)
    ensures
        final(out)@ == old(out)@ + two_digits(n as nat),
{
    if n < 10 {
        out.push('0');
        push_all(out, &write_decimal(n));
        assert(out@ == old(out)@ + (seq!['0'] + decimal(n as nat)));
    } else {
        push_all(out, &write_decimal(n));
    }
}

/// Writes an offset from UTC as a sign, the hours and the minutes.
pub fn write_offset(offset_seconds: i32) -> (r: Vec<char>)
    ensures
        r@ == offset_text(offset_seconds),
{
    let size: usize = if offset_seconds >= 0 {
        offset_seconds as usize
    } else {
        (-(offset_seconds as i64)) as usize
    };
    let mut out: Vec<char> = Vec::new();
    out.push(
        if offset_seconds >= 0 {
            '+'
        } else {
            '-'
        },
    );
    push_two_digits(&mut out, size / 3600);
    out.push(':');
    push_two_digits(&mut out, (size % 3600) / 60);
    out
}

/// Puts the report of the current time together from what the clocks gave.
pub fn report_now(
    utc_rfc3339: String,
    utc_ts: i64,
    local_rfc3339: String,
    local_offset_seconds: i32,
) -> (r: NowReport)
    ensures
        r.utc_rfc3339@ == utc_rfc3339@,
        r.utc_ts == utc_ts,
        r.local_rfc3339@ == local_rfc3339@,
        r.local_offset_seconds == local_offset_seconds,
        r.local_offset_minutes == offset_minutes(local_offset_seconds),
        r.text@ == now_text(local_rfc3339@, local_offset_seconds, utc_rfc3339@),
{
    let local_offset_minutes: i32 = if local_offset_seconds >= 0 {
        local_offset_seconds / 60
    } else {
        let size: i64 = -(local_offset_seconds as i64);
        (-(size / 60)) as i32
    };
    let mut text = chars_of("当前时间：");
    push_str(&mut text, local_rfc3339.as_str());
    push_str(&mut text, "（本地，UTC");
    push_all(&mut text, &write_offset(local_offset_seconds));
    push_str(&mut text, "）｜");
    push_str(&mut text, utc_rfc3339.as_str());
    push_str(&mut text, "（UTC）");
    NowReport {
        utc_rfc3339,
        utc_ts,
        local_rfc3339,
        local_offset_seconds,
        local_offset_minutes,
        text: string_of(&text),
    }
}

/// Which of the open namespaces a request goes to.
#[derive(Debug, Clone, Copy, PartialEq, Eq, Structural)]
pub struct Slot {
    /// The position of the namespace among the open ones.
    pub position: usize,
    /// Whether the namespace was opened just now with an index that is to
    /// be written.
    pub must_save: bool,
}

/// The engine: a root directory and the namespaces that are open under it.
pub struct MemoryEngine {
    root_dir: String,
    namespaces: Vec<NamespaceState>,
}

/// The position of the namespace named `canonical` at or after `from`, or
/// the number of states where it is not among them.
pub open spec fn state_at(states: Seq<NamespaceState>, canonical: Seq<char>, from: int) -> int
    decreases states.len() - from,
{
    if from < 0 || from >= states.len() {
        states.len() as int
    } else if states[from].paths_view().namespace == canonical {
        from
    } else {
        state_at(states, canonical, from + 1)
    }
}

impl MemoryEngine {
    /// The root directory.
    pub closed spec fn root(&self) -> Seq<char> {
        self.root_dir@
    }

    /// The open namespaces, in the order in which they were opened.
    pub closed spec fn states(&self) -> Seq<NamespaceState> {
        self.namespaces@
    }

    /// Whether the engine is sound: every open namespace is, and no two of
    /// them have the same canonical name.
    pub open spec fn wf(&self) -> bool {
        &&& forall|i: int| 0 <= i < self.states().len() ==> (#[trigger] self.states()[i]).wf()
        &&& forall|i: int, j: int|
            #![trigger self.states()[i], self.states()[j]]
            0 <= i < j < self.states().len() ==> self.states()[i].paths_view().namespace
                != self.states()[j].paths_view().namespace
    }

    /// An engine with no namespace open.
    pub fn new(root_dir: String) -> (r: MemoryEngine)
        ensures
            r.wf(),
            r.root() == root_dir@,
            r.states().len() == 0,
    {
        MemoryEngine { root_dir, namespaces: Vec::new() }
    }

    /// The root directory.
    pub fn root_dir(&self) -> (r: &str)
        ensures
            r@ == self.root(),
    {
        self.root_dir.as_str()
    }

    /// The position of the open namespace with the given canonical name.
    pub fn find(&self, canonical: &str) -> (r: Option<usize>)
        ensures
            r is Some <==> 0 <= state_at(self.states(), canonical@, 0) < self.states().len(),
            r matches Some(at) ==> at == state_at(self.states(), canonical@, 0)
                && self.states()[at as int].paths_view().namespace == canonical@,
    {
        let mut i: usize = 0;
        while i < self.namespaces.len()
            invariant
                i <= self.namespaces.len(),
                state_at(self.states(), canonical@, 0) == state_at(
                    self.states(),
                    canonical@,
                    i as int,
                ),
            decreases self.namespaces.len() - i,
        {
            if same_str(self.namespaces[i].namespace(), canonical) {
                return Some(i);
            }
            i += 1;
        }
        None
    }

    /// The open namespace at `position`.
    pub fn state(&self, position: usize) -> (r: &NamespaceState)
        requires
            position < self.states().len(),
        ensures
            *r == self.states()[position as int],
    {
        &self.namespaces[position]
    }

    /// The open namespace at `position`, to work on.
    fn state_mut(&mut self, position: usize) -> (r: &mut NamespaceState)
        requires
            position < old(self).states().len(),
        ensures
            *r == old(self).states()[position as int],
            final(self).root() == old(self).root(),
            final(self).states() == old(self).states().update(position as int, *final(r)),
    {
        &mut self.namespaces[position]
    }
}

impl MemoryEngine {
    /// Reports the current time, at UTC and in the local zone.
    ///
    /// What the clocks give is not known beforehand. Whatever it is, the
    /// seconds at UTC are what the text of the time at UTC reads as, the
    /// offset lies within a day, both times are written in full, and the
    /// minutes of the offset and the text of the report are made of them.
    pub fn now(&self) -> (r: NowReport)
        ensures
            match secs_of(r.utc_rfc3339@, DateBoundKind::Start) {
                Some(t) => r.utc_ts == t,
                None => r.utc_ts >= 0,
            },
            r.utc_rfc3339@.len() >= 20,
            r.utc_rfc3339@.last() == 'Z',
            r.local_rfc3339@.len() >= 20,
            -86_400 < r.local_offset_seconds < 86_400,
            r.local_offset_minutes == offset_minutes(r.local_offset_seconds),
            r.text@ == now_text(r.local_rfc3339@, r.local_offset_seconds, r.utc_rfc3339@),
    {
        let (utc_rfc3339, utc_ts) = stamp_now();
        let (local_rfc3339, local_offset_seconds) = now_local_rfc3339_and_offset_seconds();
        report_now(utc_rfc3339, utc_ts, local_rfc3339, local_offset_seconds)
    }

    /// Finds the open namespace that a raw namespace names, or opens it.
    ///
    /// The raw namespace is resolved first, so every spelling of a
    /// namespace reaches the same open state. `stored` is the index that is
    /// stored for the namespace, if one is; it is looked at only where the
    /// namespace is not open yet.
    pub fn get_or_open_namespace(&mut self, namespace: &str, stored: Option<IndexData>) -> (r:
        Result<Slot, MemoryError>)
        requires
            old(self).wf(),
        ensures
            final(self).wf(),
            final(self).root() == old(self).root(),
            match resolved(old(self).root(), namespace@) {
                Err(e) => r == Err::<Slot, MemoryError>(e) && final(self).states() == old(
                    self,
                ).states(),
                Ok(paths) => {
                    let at = state_at(old(self).states(), paths.namespace, 0);
                    if 0 <= at < old(self).states().len() {
                        &&& r == Ok::<Slot, MemoryError>(
                            Slot { position: at as usize, must_save: false },
                        )
                        &&& final(self).states() == old(self).states()
                    } else if stored is Some && stored->0@.version == crate::index::INDEX_VERSION
                        && !stored->0@.consistent() {
                        &&& r == Err::<Slot, MemoryError>(MemoryError::IndexCorrupt)
                        &&& final(self).states() == old(self).states()
                    } else {
                        &&& r is Ok
                        &&& r->Ok_0.position == old(self).states().len()
                        &&& r->Ok_0.must_save == (stored is None || stored->0@.version
                            != crate::index::INDEX_VERSION || stored->0@.namespace
                            != paths.namespace)
                        &&& final(self).states().len() == old(self).states().len() + 1
                        &&& final(self).states().drop_last() == old(self).states()
                        &&& final(self).states().last().paths_view() == paths
                        &&& final(self).states().last().index_view() == crate::store::opened_index(
                            paths.namespace,
                            match stored {
                                Some(index) => Some(index@),
                                None => None,
                            },
                        )
                    }
                },
            },
    {
        let paths = match StorePaths::new(self.root_dir.as_str(), namespace) {
            Ok(paths) => paths,
            Err(e) => { return Err(e); },
        };
        if let Some(at) = self.find(paths.namespace.as_str()) {
            return Ok(Slot { position: at, must_save: false });
        }
        let ghost before = self.namespaces@;
        let ghost name = paths@.namespace;
        proof {
            lemma_state_at(before, name, 0);
        }
        let opened = match NamespaceState::open(paths, stored) {
            Ok(opened) => opened,
            Err(e) => { return Err(e); },
        };
        let position = self.namespaces.len();
        self.namespaces.push(opened.state);
        proof {
            assert(self.namespaces@.drop_last() == before);
            assert forall|i: int, j: int|
                #![trigger self.namespaces@[i], self.namespaces@[j]]
                0 <= i < j < self.namespaces@.len() implies self.namespaces@[i].paths_view().namespace
                != self.namespaces@[j].paths_view().namespace by {
                if j < before.len() {
                    assert(self.namespaces@[i] == before[i] && self.namespaces@[j] == before[j]);
                } else {
                    assert(self.namespaces@[i] == before[i]);
                    assert(before[i].paths_view().namespace != name);
                }
            }
            assert forall|i: int| 0 <= i < self.namespaces@.len() implies (
            #[trigger] self.namespaces@[i]).wf() by {
                if i < before.len() {
                    assert(self.namespaces@[i] == before[i]);
                }
            }
        }
        Ok(Slot { position, must_save: opened.must_save })
    }
}

/// What `state_at` finds: the first state of the namespace, or the end.
pub proof fn lemma_state_at(states: Seq<NamespaceState>, canonical: Seq<char>, from: int)
    requires
        0 <= from,
    ensures
        0 <= state_at(states, canonical, from) <= states.len(),
        state_at(states, canonical, from) >= states.len() ==> forall|k: int|
            from <= k < states.len() ==> (#[trigger] states[k]).paths_view().namespace != canonical,
    decreases states.len() - from,
{
    if from < states.len() && states[from].paths_view().namespace != canonical {
        lemma_state_at(states, canonical, from + 1);
    }
}

/// Reads the clock at UTC and takes the seconds from the text that the
/// clock gave, so that the two cannot disagree: the seconds are what the
/// text reads as, and those of the clock only where the text does not read.
pub fn stamp_now() -> (r: (String, i64))
    ensures
        r.0@.len() >= 20,
        r.0@.last() == 'Z',
        match secs_of(r.0@, DateBoundKind::Start) {
            Some(t) => r.1 == t,
            None => r.1 >= 0,
        },
{
    let (text, clock_ts) = now_rfc3339_and_ts();
    let secs = match read_secs(&chars_of(text.as_str()), DateBoundKind::Start) {
        Some(t) => t,
        None => clock_ts,
    };
    (text, secs)
}

/// What holds of a record that was stamped just now: it is what
/// `prepare_memory` makes of the request with its identifier and its time of
/// recording; the identifier has 36 characters; and the record is entered
/// under the seconds that its time of recording reads as, or, should the
/// text not read, under seconds of the clock, which start in 1970.
pub open spec fn stamped(namespace: Seq<char>, args: RememberArgsView, p: PendingMemory) -> bool {
    &&& prepared(namespace, args, p.item@.id, p.item@.recorded_at) == Ok::<
        (MemoryItemView, Option<i64>),
        MemoryError,
    >((p.item@, p.occurred_at_ts))
    &&& crate::keywords::distinct(p.item@.keywords)
    &&& p.item@.id.len() == 36
    &&& p.item@.recorded_at.len() >= 20
    &&& p.item@.recorded_at.last() == 'Z'
    &&& match secs_of(p.item@.recorded_at, DateBoundKind::Start) {
        Some(t) => p.recorded_at_ts == t,
        None => p.recorded_at_ts >= 0,
    }
}

/// Turns a request to remember into the record to append, stamped with a
/// fresh identifier and the current time.
///
/// Which identifier and which time the record gets is not known
/// beforehand. Whatever they are, the record is what `prepare_memory` makes
/// of the request with them, and it is entered under the seconds that its
/// time of recording reads as; and a request that is refused is refused
/// whatever they would have been.
pub fn prepare_memory_now(state: &NamespaceState, args: RememberArgs) -> (r: Result<
    PendingMemory,
    MemoryError,
>)
    ensures
        match r {
            Ok(p) => stamped(state.paths_view().namespace, args@, p),
            Err(e) => forall|id: Seq<char>, at: Seq<char>|
                #[trigger] prepared(state.paths_view().namespace, args@, id, at) == Err::<
                    (MemoryItemView, Option<i64>),
                    MemoryError,
                >(e),
        },
{
    let (recorded_at, recorded_at_ts) = stamp_now();
    let id = fresh_id();
    state.prepare_memory(args, id, recorded_at, recorded_at_ts)
}

/// Whether `after` is `before` but for the state at `position`, which is
/// still sound and still the state of the same namespace.
pub open spec fn worked_on(
    before: Seq<NamespaceState>,
    after: Seq<NamespaceState>,
    position: int,
) -> bool {
    &&& after.len() == before.len()
    &&& forall|i: int| 0 <= i < before.len() && i != position ==> #[trigger] after[i] == before[i]
    &&& 0 <= position < before.len() ==> after[position].wf() && after[position].paths_view()
        == before[position].paths_view()
}

/// Work on one state that leaves it sound and in its namespace leaves the
/// engine sound.
pub proof fn lemma_worked_on(before: MemoryEngine, after: MemoryEngine, position: int)
    requires
        before.wf(),
        0 <= position < before.states().len(),
        worked_on(before.states(), after.states(), position),
    ensures
        after.wf(),
{
    assert forall|i: int| 0 <= i < after.states().len() implies (#[trigger] after.states()[i]).wf() by {
        if i != position {
            assert(after.states()[i] == before.states()[i]);
        }
    }
    assert forall|i: int, j: int|
        #![trigger after.states()[i], after.states()[j]]
        0 <= i < j < after.states().len() implies after.states()[i].paths_view().namespace
        != after.states()[j].paths_view().namespace by {
        assert(before.states()[i].paths_view().namespace
            != before.states()[j].paths_view().namespace);
        if i != position {
            assert(after.states()[i] == before.states()[i]);
        }
        if j != position {
            assert(after.states()[j] == before.states()[j]);
        }
    }
}

impl MemoryEngine {
    /// Brings the index of the namespace at `position` in step with a log
    /// of length `log_len`; see `NamespaceState::sync_index`.
    pub fn sync_index(&mut self, position: usize, log_len: u64) -> (r: SyncAction)
        requires
            old(self).wf(),
            position < old(self).states().len(),
        ensures
            final(self).wf(),
            final(self).root() == old(self).root(),
            worked_on(old(self).states(), final(self).states(), position as int),
            final(self).states()[position as int].index_view() == resynced(
                old(self).states()[position as int].index_view(),
                log_len,
            ),
            r == if log_len == final(self).states()[position as int].index_view().indexed_up_to_offset {
                SyncAction::UpToDate
            } else {
                SyncAction::ReadFrom(
                    final(self).states()[position as int].index_view().indexed_up_to_offset,
                )
            },
    {
        let ghost before = *self;
        let state = self.state_mut(position);
        let r = state.sync_index(log_len);
        proof {
            lemma_worked_on(before, *self, position as int);
        }
        r
    }

    /// Takes lines of the log into the index of the namespace at
    /// `position`; see `NamespaceState::index_lines`.
    pub fn index_lines(&mut self, position: usize, lines: &Vec<LogLine>)
        requires
            old(self).wf(),
            position < old(self).states().len(),
            old(self).states()[position as int].index_view().items.len() + lines.len()
                <= u32::MAX,
            old(self).states()[position as int].index_view().indexed_up_to_offset + total_length(
                line_views(lines@),
            ) <= u64::MAX,
        ensures
            final(self).wf(),
            final(self).root() == old(self).root(),
            worked_on(old(self).states(), final(self).states(), position as int),
            final(self).states()[position as int].index_view() == with_lines(
                old(self).states()[position as int].index_view(),
                line_views(lines@),
            ),
    {
        let ghost before = *self;
        let state = self.state_mut(position);
        state.index_lines(lines);
        proof {
            lemma_worked_on(before, *self, position as int);
        }
    }

    /// Enters a record that was appended to the log of the namespace at
    /// `position`; see `NamespaceState::append_memory`.
    pub fn append_memory(
        &mut self,
        position: usize,
        pending: PendingMemory,
        offset: u64,
        length: u32,
    ) -> (r: RememberRecorded)
        requires
            old(self).wf(),
            position < old(self).states().len(),
            crate::model::importance_ok(pending.item@.importance),
            pending.item@.keywords.len() > 0,
            crate::keywords::distinct(pending.item@.keywords),
            old(self).states()[position as int].index_view().items.len() < u32::MAX,
            old(self).states()[position as int].index_view().indexed_up_to_offset <= offset,
            offset + length <= u64::MAX,
        ensures
            final(self).wf(),
            final(self).root() == old(self).root(),
            worked_on(old(self).states(), final(self).states(), position as int),
            final(self).states()[position as int].index_view() == appended(
                old(self).states()[position as int].index_view(),
                pending.item@,
                offset,
                length,
                pending.recorded_at_ts,
                pending.occurred_at_ts,
            ),
            r.id@ == pending.item@.id,
            r.recorded_at@ == pending.item@.recorded_at,
            crate::text::opt_text(r.occurred_at) == pending.item@.occurred_at,
            crate::text::texts(r.keywords@) == pending.item@.keywords,
    {
        let ghost before = *self;
        let state = self.state_mut(position);
        let r = state.append_memory(pending, offset, length);
        proof {
            lemma_worked_on(before, *self, position as int);
        }
        r
    }

    /// Settles the time order of the namespace at `position` and plans a
    /// recall; see `NamespaceState::plan_recall`.
    pub fn plan_recall(&mut self, position: usize, args: RecallArgs) -> (r: Result<
        RecallPlan,
        MemoryError,
    >)
        requires
            old(self).wf(),
            position < old(self).states().len(),
        ensures
            final(self).wf(),
            final(self).root() == old(self).root(),
            worked_on(old(self).states(), final(self).states(), position as int),
            final(self).states()[position as int].index_view() == old(
                self,
            ).states()[position as int].index_view().settled(),
            plan_is(r, planned(final(self).states()[position as int].index_view(), args@)),
    {
        let ghost before = *self;
        let state = self.state_mut(position);
        let r = state.plan_recall(args);
        proof {
            lemma_worked_on(before, *self, position as int);
        }
        r
    }

    /// Answers a recall over the namespace at `position`, given the records
    /// that the positions of its index read back as; see
    /// `NamespaceState::recall`.
    pub fn recall(
        &mut self,
        position: usize,
        args: RecallArgs,
        records: &Vec<Option<MemoryItem>>,
    ) -> (r: Result<RecallResult, MemoryError>)
        requires
            old(self).wf(),
            position < old(self).states().len(),
        ensures
            final(self).wf(),
            final(self).root() == old(self).root(),
            worked_on(old(self).states(), final(self).states(), position as int),
            final(self).states()[position as int].index_view() == old(
                self,
            ).states()[position as int].index_view().settled(),
            match recalled(
                final(self).states()[position as int].index_view(),
                args@,
                record_views(records@),
            ) {
                Ok(hits) => r is Ok && r->Ok_0@ == handed_out(hits) && r->Ok_0.total
                    == hits.len(),
                Err(e) => r is Err && r->Err_0 == e,
            },
    {
        let ghost before = *self;
        let state = self.state_mut(position);
        let r = state.recall(args, records);
        proof {
            lemma_worked_on(before, *self, position as int);
        }
        r
    }

    /// The keywords in use in the namespace at `position`, in listing
    /// order.
    pub fn keywords_list(&self, position: usize) -> (r: Vec<String>)
        requires
            position < self.states().len(),
        ensures
            crate::text::texts(r@) == crate::keywords::listed(
                crate::store::keywords_in_use(self.states()[position as int].index_view()),
            ),
    {
        self.namespaces[position].list_keywords()
    }

    /// Turns a request to remember into the record to append to the log of
    /// the namespace at `position`, stamped with a fresh identifier and the
    /// current time; see `prepare_memory_now`.
    pub fn remember(&self, position: usize, args: RememberArgs) -> (r: Result<
        PendingMemory,
        MemoryError,
    >)
        requires
            position < self.states().len(),
        ensures
            match r {
                Ok(p) => stamped(self.states()[position as int].paths_view().namespace, args@, p),
                Err(e) => forall|id: Seq<char>, at: Seq<char>|
                    #[trigger] prepared(
                        self.states()[position as int].paths_view().namespace,
                        args@,
                        id,
                        at,
                    ) == Err::<(MemoryItemView, Option<i64>), MemoryError>(e),
            },
    {
        prepare_memory_now(&self.namespaces[position], args)
    }
}

} // verus!
