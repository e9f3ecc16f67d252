//! The store of one namespace: its paths and its index, and the operations
//! that keep the index in step with the log.
//!
//! The store does not touch files. Whoever drives it reads and writes the
//! log and the index file and tells the store what was found; the store
//! decides what that means.

use vstd::prelude::*;
use vstd::string::*;
use crate::error::MemoryError;
use crate::index::{IndexData, IndexDataView, IndexItemView, INDEX_VERSION};
use crate::keywords::{
    distinct, lemma_normalized_distinct, listed, normalize_keywords, normalized, sort_keywords,
};
use crate::log::{entry_for, incremental_index, line_views, total_length, with_lines, LogLine};
use crate::model::{
    check_importance, importance_ok, MemoryItem, MemoryItemView, RecallArgs, RecallItemOut,
    RecallResult, RememberArgs, RememberArgsView,
};
use crate::namespace::{StorePaths, StorePathsView};
use crate::recall::{
    handed_out, lemma_recall_finds_all, names_all, newest_first, plan_recall, reads_back,
    recalled, record_at, record_views,
    try_load_item_for_recall,
};
use crate::text::{copy_opt_text, copy_texts, opt_text, texts};
use crate::time::{parse_time_to_ts_and_canonical, time_reading, DateBoundKind};

verus! {

/// One open namespace.
pub struct NamespaceState {
    paths: StorePaths,
    index: IndexData,
}

/// A namespace that has just been opened.
pub struct Opened {
    pub state: NamespaceState,
    /// Whether the index differs from what is stored and must be written.
    pub must_save: bool,
}

/// What the caller of `sync_index` has to do next.
#[derive(Debug, Clone, Copy, PartialEq, Eq, Structural)]
pub enum SyncAction {
    /// The index accounts for the whole log.
    UpToDate,
    /// The log has grown: its lines from the given offset on are to be read
    /// and handed to `index_lines`, and the index is to be written.
    ReadFrom(u64),
}

/// A record that is ready to be appended to the log.
pub struct PendingMemory {
    pub item: MemoryItem,
    pub recorded_at_ts: i64,
    pub occurred_at_ts: Option<i64>,
}

/// What is reported of a record once it is appended.
#[derive(Debug, Clone)]
pub struct RememberRecorded {
    pub id: String,
    pub recorded_at: String,
    pub occurred_at: Option<String>,
    pub keywords: Vec<String>,
}

/// The keywords of the postings, in the order of the postings.
pub open spec fn keywords_in_use(index: IndexDataView) -> Seq<Seq<char>> {
    Seq::new(index.postings.len(), |i: int| index.postings[i].keyword)
}

/// The index that a namespace is opened with, given what is stored: a fresh
/// one where nothing is stored or the stored version is not the current
/// one; else the stored one, under the namespace that is being opened.
pub open spec fn opened_index(namespace: Seq<char>, stored: Option<IndexDataView>) -> IndexDataView {
    match stored {
        Some(index) => if index.version != INDEX_VERSION {
            IndexDataView::empty(namespace)
        } else {
            IndexDataView { namespace, ..index }
        },
        None => IndexDataView::empty(namespace),
    }
}

/// The index once the log is known to have the length `log_len`: a log that
/// is shorter than what the index accounts for was cut or replaced, and the
/// index starts afresh.
pub open spec fn resynced(index: IndexDataView, log_len: u64) -> IndexDataView {
    if log_len < index.indexed_up_to_offset {
        IndexDataView::empty(index.namespace)
    } else {
        index
    }
}

/// What a request to remember becomes, given the identifier and the time of
/// recording that the record is to carry. An importance outside `1..=5` is
/// refused first, then a time of occurrence that does not read, then
/// keywords of which none is left.
pub open spec fn prepared(
    namespace: Seq<char>,
    args: RememberArgsView,
    id: Seq<char>,
    recorded_at: Seq<char>,
) -> Result<(MemoryItemView, Option<i64>), MemoryError> {
    let occurred = match args.occurred_at {
        Some(text) => match time_reading(text, DateBoundKind::Start) {
            Ok(m) => Ok(Some(m)),
            Err(e) => Err(e),
        },
        None => Ok(None),
    };
    let keywords = normalized(args.keywords);
    if !importance_ok(args.importance) {
        Err(MemoryError::InvalidImportance)
    } else if occurred is Err {
        Err(occurred->Err_0)
    } else if keywords.len() == 0 {
        Err(MemoryError::EmptyKeywords)
    } else {
        Ok(
            (
                MemoryItemView {
                    id,
                    namespace,
                    recorded_at,
                    occurred_at: match occurred->Ok_0 {
                        Some(m) => Some(m.text),
                        None => None,
                    },
                    keywords,
                    slice: args.slice,
                    diary: args.diary,
                    importance: args.importance,
                    source: args.source,
                },
                match occurred->Ok_0 {
                    Some(m) => Some(m.secs),
                    None => None,
                },
            ),
        )
    }
}

/// What the index keeps of a record that was just appended at `offset`.
pub open spec fn entry_of(
    item: MemoryItemView,
    offset: u64,
    length: u32,
    recorded_at_ts: i64,
    occurred_at_ts: Option<i64>,
) -> IndexItemView {
    IndexItemView {
        id: item.id,
        offset,
        length,
        recorded_at_ts,
        occurred_at_ts,
        importance: item.importance,
        keywords: item.keywords,
    }
}

/// The index once a record that was appended at `offset` is entered.
pub open spec fn appended(
    index: IndexDataView,
    item: MemoryItemView,
    offset: u64,
    length: u32,
    recorded_at_ts: i64,
    occurred_at_ts: Option<i64>,
) -> IndexDataView {
    IndexDataView {
        indexed_up_to_offset: (offset + length) as u64,
        ..index.with_item(entry_of(item, offset, length, recorded_at_ts, occurred_at_ts))
    }
}

impl PendingMemory {
    /// Whether the record may be entered: its importance, if it has one,
    /// lies in `1..=5`, and it has keywords, none of them twice.
    pub fn is_acceptable(&self) -> (r: bool)
        ensures
            r == (importance_ok(self.item@.importance) && self.item@.keywords.len() > 0
                && distinct(self.item@.keywords)),
    {
        if check_importance(self.item.importance).is_err() {
            return false;
        }
        let n = self.item.keywords.len();
        if n == 0 {
            return false;
        }
        let ghost all = self.item@.keywords;
        let mut i: usize = 0;
        while i < n
            invariant
                i <= n,
                n == self.item.keywords@.len(),
                all == texts(self.item.keywords@),
                forall|a: int, b: int| 0 <= a < b < i ==> all[a] != all[b],
            decreases n - i,
        {
            let mut j: usize = 0;
            while j < i
                invariant
                    j <= i < n,
                    n == self.item.keywords@.len(),
                    all == texts(self.item.keywords@),
                    forall|a: int| 0 <= a < j ==> all[a] != all[i as int],
                decreases i - j,
            {
                assert(all[j as int] == self.item.keywords@[j as int]@);
                assert(all[i as int] == self.item.keywords@[i as int]@);
                if self.item.keywords[j] == self.item.keywords[i] {
                    return false;
                }
                j += 1;
            }
            i += 1;
        }
        true
    }
}

impl NamespaceState {
    /// The paths of the namespace.
    pub closed spec fn paths_view(&self) -> StorePathsView {
        self.paths@
    }

    /// The index of the namespace.
    pub closed spec fn index_view(&self) -> IndexDataView {
        self.index@
    }

    /// Whether the state is sound: the index is consistent, is of the
    /// current version and belongs to the namespace of the paths.
    pub open spec fn wf(&self) -> bool {
        &&& self.index_view().consistent()
        &&& self.index_view().version == INDEX_VERSION
        &&& self.index_view().namespace == self.paths_view().namespace
    }

    /// Opens a namespace, given the index that is stored for it, if one is.
    ///
    /// Where nothing is stored, or what is stored has another version, the
    /// namespace starts with a fresh index, which is to be written. A stored
    /// index under another namespace is taken over under this one and is to
    /// be written. A stored index of the current version that is not
    /// consistent is refused.
    pub fn open(paths: StorePaths, stored: Option<IndexData>) -> (r: Result<Opened, MemoryError>)
        ensures
            r is Err <==> (stored is Some && stored->0@.version == INDEX_VERSION
                && !stored->0@.consistent()),
            r matches Err(e) ==> e == MemoryError::IndexCorrupt,
            r matches Ok(o) ==> {
                &&& o.state.wf()
                &&& o.state.paths_view() == paths@
                &&& o.state.index_view() == opened_index(
                    paths@.namespace,
                    match stored {
                        Some(index) => Some(index@),
                        None => None,
                    },
                )
                &&& o.must_save == (stored is None || stored->0@.version != INDEX_VERSION
                    || stored->0@.namespace != paths@.namespace)
            },
    {
        match stored {
            None => {
                let index = IndexData::new(paths.namespace.as_str());
                Ok(Opened { state: NamespaceState { paths, index }, must_save: true })
            },
            Some(found) => {
                if found.version != INDEX_VERSION {
                    let index = IndexData::new(paths.namespace.as_str());
                    return Ok(Opened { state: NamespaceState { paths, index }, must_save: true });
                }
                if !found.is_consistent() {
                    return Err(MemoryError::IndexCorrupt);
                }
                let mut index = found;
                let must_save = index.namespace != paths.namespace;
                if must_save {
                    index.namespace = paths.namespace.clone();
                }
                assert(index@ == (IndexDataView { namespace: paths@.namespace, ..found@ }));
                Ok(Opened { state: NamespaceState { paths, index }, must_save })
            },
        }
    }

    /// The canonical namespace.
    pub fn namespace(&self) -> (r: &str)
        ensures
            r@ == self.paths_view().namespace,
    {
        self.paths.namespace.as_str()
    }

    /// The paths of the namespace.
    pub fn paths(&self) -> (r: &StorePaths)
        ensures
            r@ == self.paths_view(),
    {
        &self.paths
    }

    /// The index of the namespace.
    pub fn index(&self) -> (r: &IndexData)
        ensures
            r@ == self.index_view(),
    {
        &self.index
    }

    /// Brings the index in step with a log of length `log_len`, as far as
    /// that takes no reading: an index that accounts for more than the log
    /// holds starts afresh. What is left to do is returned.
    pub fn sync_index(&mut self, log_len: u64) -> (r: SyncAction)
        requires
            old(self).wf(),
        ensures
            final(self).wf(),
            final(self).paths_view() == old(self).paths_view(),
            final(self).index_view() == resynced(old(self).index_view(), log_len),
            final(self).index_view().indexed_up_to_offset <= log_len,
            r == if log_len == final(self).index_view().indexed_up_to_offset {
                SyncAction::UpToDate
            } else {
                SyncAction::ReadFrom(final(self).index_view().indexed_up_to_offset)
            },
    {
        if log_len < self.index.indexed_up_to_offset {
            self.index = IndexData::new(self.paths.namespace.as_str());
        }
        if log_len == self.index.indexed_up_to_offset {
            SyncAction::UpToDate
        } else {
            SyncAction::ReadFrom(self.index.indexed_up_to_offset)
        }
    }

    /// Takes the lines of the log that follow what the index accounts for
    /// into the index. The lines must fit: the index holds at most 2^32 - 1
    /// records, and the log at most 2^64 - 1 bytes.
    pub fn index_lines(&mut self, lines: &Vec<LogLine>)
        requires
            old(self).wf(),
            old(self).index_view().items.len() + lines.len() <= u32::MAX,
            old(self).index_view().indexed_up_to_offset + total_length(line_views(lines@))
                <= u64::MAX,
        ensures
            final(self).wf(),
            final(self).paths_view() == old(self).paths_view(),
            final(self).index_view() == with_lines(old(self).index_view(), line_views(lines@)),
    {
        proof {
            crate::log::lemma_with_lines_extent(self.index@, line_views(lines@));
        }
        incremental_index(&mut self.index, lines);
    }

    /// The keywords in use, in listing order: shorter ones first, and those
    /// of one length in the order of the dictionary.
    pub fn list_keywords(&self) -> (r: Vec<String>)
        ensures
            texts(r@) == listed(keywords_in_use(self.index_view())),
    {
        let mut keys: Vec<String> = Vec::new();
        let mut i: usize = 0;
        while i < self.index.keyword_postings.len()
            invariant
                i <= self.index.keyword_postings.len(),
                texts(keys@) == keywords_in_use(self.index@).take(i as int),
            decreases self.index.keyword_postings.len() - i,
        {
            let ghost before = texts(keys@);
            keys.push(self.index.keyword_postings[i].keyword.clone());
            proof {
                let shown = self.index.keyword_postings@[i as int].keyword@;
                assert(self.index@.postings[i as int] == self.index.keyword_postings@[i as int]@);
                assert(texts(keys@) == before.push(shown));
                assert(keywords_in_use(self.index@).take(i + 1) == keywords_in_use(
                    self.index@,
                ).take(i as int).push(shown));
            }
            i += 1;
        }
        assert(keywords_in_use(self.index@).take(self.index.keyword_postings.len() as int)
            == keywords_in_use(self.index@));
        sort_keywords(&keys)
    }

    /// Turns a request to remember into the record to append, given the
    /// identifier and the time of recording that the record is to carry.
    pub fn prepare_memory(
        &self,
        args: RememberArgs,
        id: String,
        recorded_at: String,
        recorded_at_ts: i64,
    ) -> (r: Result<PendingMemory, MemoryError>)
        ensures
            match prepared(self.paths_view().namespace, args@, id@, recorded_at@) {
                Ok(p) => r is Ok && r->Ok_0.item@ == p.0 && r->Ok_0.occurred_at_ts == p.1
                    && r->Ok_0.recorded_at_ts == recorded_at_ts,
                Err(e) => r is Err && r->Err_0 == e,
            },
            r matches Ok(p) ==> distinct(p.item@.keywords) && p.item@.keywords.len() > 0,
    {
        if let Err(e) = check_importance(args.importance) {
            return Err(e);
        }
        let (occurred_at, occurred_at_ts) = match &args.occurred_at {
            Some(text) => match parse_time_to_ts_and_canonical(text.as_str(), DateBoundKind::Start) {
                Ok(p) => (Some(p.1), Some(p.0)),
                Err(e) => { return Err(e); },
            },
            None => (None, None),
        };
        proof {
            lemma_normalized_distinct(texts(args.keywords@));
        }
        let keywords = normalize_keywords(args.keywords);
        if keywords.len() == 0 {
            return Err(MemoryError::EmptyKeywords);
        }
        Ok(
            PendingMemory {
                item: MemoryItem {
                    id,
                    namespace: self.paths.namespace.clone(),
                    recorded_at,
                    occurred_at,
                    keywords,
                    slice: args.slice,
                    diary: args.diary,
                    importance: args.importance,
                    source: args.source,
                },
                recorded_at_ts,
                occurred_at_ts,
            },
        )
    }

    /// Enters a record that was appended to the log at `offset`, its line
    /// being `length` bytes long, and reports it.
    ///
    /// The record must be one that `prepare_memory` accepts: its importance,
    /// if it has one, lies in `1..=5`, and it has keywords, none of them
    /// twice. It must lie behind what the index accounts for; and it must
    /// fit, as for `index_lines`.
    pub fn append_memory(&mut self, pending: PendingMemory, offset: u64, length: u32) -> (r:
        RememberRecorded)
        requires
            old(self).wf(),
            importance_ok(pending.item@.importance),
            pending.item@.keywords.len() > 0,
            distinct(pending.item@.keywords),
            old(self).index_view().items.len() < u32::MAX,
            old(self).index_view().indexed_up_to_offset <= offset,
            offset + length <= u64::MAX,
        ensures
            final(self).wf(),
            final(self).paths_view() == old(self).paths_view(),
            final(self).index_view() == appended(
                old(self).index_view(),
                pending.item@,
                offset,
                length,
                pending.recorded_at_ts,
                pending.occurred_at_ts,
            ),
            r.id@ == pending.item@.id,
            r.recorded_at@ == pending.item@.recorded_at,
            opt_text(r.occurred_at) == pending.item@.occurred_at,
            texts(r.keywords@) == pending.item@.keywords,
    {
        let ghost before = self.index@;
        let keywords = copy_texts(&pending.item.keywords);
        self.index.add_memory_item(
            &pending.item,
            offset,
            length,
            pending.recorded_at_ts,
            pending.occurred_at_ts,
            keywords,
        );
        self.index.indexed_up_to_offset = offset + length as u64;
        proof {
            let after = self.index@;
            assert forall|i: int| 0 <= i < after.items.len() implies (
            #[trigger] after.items[i]).offset + after.items[i].length
                <= after.indexed_up_to_offset by {
                if i < before.items.len() {
                    assert(after.items[i] == before.items[i]);
                }
            }
        }
        RememberRecorded {
            id: pending.item.id.clone(),
            recorded_at: pending.item.recorded_at.clone(),
            occurred_at: copy_opt_text(&pending.item.occurred_at),
            keywords: copy_texts(&pending.item.keywords),
        }
    }

    /// The positions of the records whose time key lies in the range, the
    /// last of the time order first.
    pub fn iter_time_candidates(&self, start_ts: Option<i64>, end_ts: Option<i64>) -> (r: Vec<u32>)
        ensures
            r@ == newest_first(
                self.index_view().items,
                self.index_view().time_sorted,
                start_ts,
                end_ts,
            ),
    {
        self.index.iter_time_candidates(start_ts, end_ts)
    }

    /// Where the record at position `idx` lies in the log: its offset and
    /// the length of its line.
    pub fn locate(&self, idx: u32) -> (r: Option<(u64, u32)>)
        ensures
            r is Some <==> idx < self.index_view().items.len(),
            r matches Some(p) ==> p.0 == self.index_view().items[idx as int].offset && p.1
                == self.index_view().items[idx as int].length,
    {
        if (idx as usize) < self.index.items.len() {
            assert(self.index@.items[idx as int] == self.index.items@[idx as int]@);
            Some((self.index.items[idx as usize].offset, self.index.items[idx as usize].length))
        } else {
            None
        }
    }

    /// Decides what becomes of the record that was read for position `idx`
    /// in a recall; see `try_load_item_for_recall` of the recall engine.
    pub fn try_load_item_for_recall(
        &self,
        record: Option<&MemoryItem>,
        keyword_set: Option<&Vec<String>>,
        query: &Option<String>,
        include_diary: bool,
    ) -> (r: Result<Option<RecallItemOut>, MemoryError>)
        ensures
            record is None ==> r == Err::<Option<RecallItemOut>, MemoryError>(
                MemoryError::RecordUnreadable,
            ),
            record matches Some(item) ==> r is Ok && (match r->Ok_0 {
                Some(out) => Some(out@),
                None => None,
            }) == crate::recall::admitted(
                item@,
                match keyword_set {
                    Some(k) => Some(texts(k@)),
                    None => None,
                },
                opt_text(*query),
                include_diary,
            ),
    {
        try_load_item_for_recall(record, keyword_set, query, include_diary)
    }

    /// Settles the time order and plans a recall; the caller reads the
    /// records that the plan visits and lets the plan consider each.
    pub fn plan_recall(&mut self, args: RecallArgs) -> (r: Result<
        crate::recall::RecallPlan,
        MemoryError,
    >)
        requires
            old(self).wf(),
        ensures
            final(self).wf(),
            final(self).paths_view() == old(self).paths_view(),
            final(self).index_view() == old(self).index_view().settled(),
            crate::recall::plan_is(r, crate::recall::planned(final(self).index_view(), args@)),
    {
        self.index.ensure_time_sorted();
        plan_recall(&self.index, args)
    }

    /// Answers a recall, given the records that the positions of the index
    /// read back as: `records[i]` is the record of position `i`, and
    /// `None`, or a missing member, stands for a record that cannot be read.
    ///
    /// The time order of the index is settled first. Then the request is
    /// planned and the plan carried out: see `planned` and `visit` of the
    /// recall engine.
    pub fn recall(&mut self, args: RecallArgs, records: &Vec<Option<MemoryItem>>) -> (r: Result<
        RecallResult,
        MemoryError,
    >)
        requires
            old(self).wf(),
        ensures
            final(self).wf(),
            final(self).paths_view() == old(self).paths_view(),
            final(self).index_view() == old(self).index_view().settled(),
            match recalled(final(self).index_view(), args@, record_views(records@)) {
                Ok(hits) => r is Ok && r->Ok_0@ == handed_out(hits) && r->Ok_0.total
                    == hits.len(),
                Err(e) => r is Err && r->Err_0 == e,
            },
    {
        let plan = match self.plan_recall(args) {
            Ok(plan) => plan,
            Err(e) => { return Err(e); },
        };
        plan.run(records)
    }
}

/// The log alone is enough to restore what an append did to the index.
///
/// Take a record that was appended where the index ended, and suppose the
/// index was then lost before it was written. If the line of the record
/// reads back as the record, with keywords that are their own normal forms
/// and with times that read back as the seconds they were entered with,
/// then taking the line in from the log yields the very index that the
/// append yielded.
pub proof fn lemma_reindex_restores_append(
    index: IndexDataView,
    item: MemoryItemView,
    length: u32,
    recorded_at_ts: i64,
    occurred_at_ts: Option<i64>,
)
    requires
        normalized(item.keywords) == item.keywords,
        crate::time::secs_of(item.recorded_at, DateBoundKind::Start) == Some(recorded_at_ts),
        occurred_at_ts == match item.occurred_at {
            Some(text) => crate::time::secs_of(text, DateBoundKind::Start),
            None => None,
        },
    ensures
        crate::log::with_line(index, crate::log::LogLineView { length, record: Some(item) })
            == appended(
            index,
            item,
            index.indexed_up_to_offset,
            length,
            recorded_at_ts,
            occurred_at_ts,
        ),
{
}

/// Bringing the index in step with the log is idempotent: once it is done
/// for a log of some length, doing it again for the same length changes
/// nothing.
pub proof fn lemma_resync_idempotent(index: IndexDataView, log_len: u64)
    ensures
        resynced(resynced(index, log_len), log_len) == resynced(index, log_len),
        resynced(index, log_len).indexed_up_to_offset <= log_len,
{
}

/// Once the lines that the log has beyond the index are taken in, the index
/// accounts for the whole log, and nothing is left to read.
pub proof fn lemma_lines_complete_sync(
    index: IndexDataView,
    log_len: u64,
    lines: Seq<crate::log::LogLineView>,
)
    requires
        resynced(index, log_len).indexed_up_to_offset + total_length(lines) == log_len,
    ensures
        with_lines(resynced(index, log_len), lines).indexed_up_to_offset == log_len,
        resynced(with_lines(resynced(index, log_len), lines), log_len) == with_lines(
            resynced(index, log_len),
            lines,
        ),
{
    crate::log::lemma_with_lines_extent(resynced(index, log_len), lines);
}

/// In a sound state no keyword is in use twice, so the listing of the
/// keywords ascends strictly and does not depend on the order in which the
/// keywords came into use.
pub proof fn lemma_keywords_in_use_distinct(index: IndexDataView)
    requires
        index.wf(),
    ensures
        distinct(keywords_in_use(index)),
        listed(keywords_in_use(index)).len() == index.postings.len(),
        forall|i: int, j: int|
            #![trigger listed(keywords_in_use(index))[i], listed(keywords_in_use(index))[j]]
            0 <= i < j < listed(keywords_in_use(index)).len() ==> crate::keywords::keyword_le(
                listed(keywords_in_use(index))[i],
                listed(keywords_in_use(index))[j],
            ) && listed(keywords_in_use(index))[i] != listed(keywords_in_use(index))[j],
{
    let keys = keywords_in_use(index);
    assert forall|i: int, j: int| 0 <= i < j < keys.len() implies keys[i] != keys[j] by {
        assert(index.postings[i].keyword != index.postings[j].keyword);
    }
    crate::keywords::lemma_listed_strict(keys);
}

/// The records that the given lines hold, in order, each as it reads.
pub open spec fn records_of(lines: Seq<crate::log::LogLineView>) -> Seq<Option<MemoryItemView>>
    decreases lines.len(),
{
    if lines.len() == 0 {
        Seq::empty()
    } else {
        let before = records_of(lines.drop_last());
        match lines.last().record {
            Some(record) => before.push(Some(record)),
            None => before,
        }
    }
}

/// The index stays in agreement with the log while it takes lines in.
///
/// Let `records` be what the lines that the index accounts for read as, one
/// for each record of the index, and let the index agree with them. Then,
/// once more lines are taken in, the index has one more record for each
/// line that holds one, and it agrees with the records of all the lines:
/// each of its records has the identifier and the importance of the record
/// of its line, the normalized keywords of that record, and the seconds that
/// the times of that record read as.
pub proof fn lemma_lines_read_back(
    index: IndexDataView,
    records: Seq<Option<MemoryItemView>>,
    lines: Seq<crate::log::LogLineView>,
)
    requires
        reads_back(index, records),
        records.len() == index.items.len(),
        index.indexed_up_to_offset + total_length(lines) <= u64::MAX,
    ensures
        reads_back(with_lines(index, lines), records + records_of(lines)),
        with_lines(index, lines).items.len() == (records + records_of(lines)).len(),
    decreases lines.len(),
{
    if lines.len() == 0 {
        assert(records + records_of(lines) == records);
    } else {
        let rest = lines.drop_last();
        let mid = with_lines(index, rest);
        let after = with_lines(index, lines);
        let so_far = records + records_of(rest);
        let all = records + records_of(lines);
        lemma_lines_read_back(index, records, rest);
        match lines.last().record {
            Some(record) => {
                assert(all == so_far.push(Some(record)));
                assert forall|i: int|
                    0 <= i < after.items.len() && i < all.len() && all[i] is Some implies (
                #[trigger] after.items[i]) == entry_for(
                    all[i]->0,
                    after.items[i].offset,
                    after.items[i].length,
                ) by {
                    if i < mid.items.len() {
                        assert(after.items[i] == mid.items[i]);
                        assert(all[i] == so_far[i]);
                    }
                }
            },
            None => {
                assert(all == so_far);
                assert forall|i: int|
                    0 <= i < after.items.len() && i < all.len() && all[i] is Some implies (
                #[trigger] after.items[i]) == entry_for(
                    all[i]->0,
                    after.items[i].offset,
                    after.items[i].length,
                ) by {
                    assert(after.items[i] == mid.items[i]);
                }
            },
        }
    }
}

/// The index stays in agreement with the log when a record is appended, as
/// long as the record reads back as it was entered: its keywords are their
/// own normal forms, and its times read as the seconds it was entered with.
pub proof fn lemma_append_reads_back(
    index: IndexDataView,
    records: Seq<Option<MemoryItemView>>,
    item: MemoryItemView,
    offset: u64,
    length: u32,
    recorded_at_ts: i64,
    occurred_at_ts: Option<i64>,
)
    requires
        reads_back(index, records),
        records.len() == index.items.len(),
        normalized(item.keywords) == item.keywords,
        crate::log::recorded_secs(item.recorded_at) == recorded_at_ts,
        crate::log::occurred_secs(item.occurred_at) == occurred_at_ts,
    ensures
        reads_back(
            appended(index, item, offset, length, recorded_at_ts, occurred_at_ts),
            records.push(Some(item)),
        ),
{
    let after = appended(index, item, offset, length, recorded_at_ts, occurred_at_ts);
    let all = records.push(Some(item));
    assert forall|i: int| 0 <= i < after.items.len() && i < all.len() && all[i] is Some implies (
    #[trigger] after.items[i]) == entry_for(all[i]->0, after.items[i].offset, after.items[i].length) by {
        if i < index.items.len() {
            assert(after.items[i] == index.items[i]);
            assert(all[i] == records[i]);
        }
    }
}

/// Taking lines in leaves no record out of the time order.
pub proof fn lemma_with_lines_names_all(index: IndexDataView, lines: Seq<crate::log::LogLineView>)
    requires
        names_all(index),
        index.items.len() + lines.len() <= u32::MAX,
    ensures
        names_all(with_lines(index, lines)),
    decreases lines.len(),
{
    if lines.len() > 0 {
        let mid = with_lines(index, lines.drop_last());
        let after = with_lines(index, lines);
        lemma_with_lines_names_all(index, lines.drop_last());
        crate::log::lemma_with_lines_extent_free(index, lines.drop_last());
        assert forall|x: u32| x < after.items.len() implies #[trigger] after.time_sorted.contains(
            x,
        ) by {
            if x < mid.items.len() {
                assert(mid.time_sorted.contains(x));
                let j = choose|j: int| 0 <= j < mid.time_sorted.len() && mid.time_sorted[j] == x;
                assert(after.time_sorted[j] == x);
            } else {
                assert(after.time_sorted[mid.time_sorted.len() as int] == x);
            }
        }
    }
}

/// The log alone is enough to recall a record.
///
/// Let the index be lost, and let it be rebuilt from nothing out of the
/// lines of the log and settled. If the line at `at` holds a record, and
/// the records are read back as the lines hold them, then a request for
/// everything, with a limit that is not below the number of records, hands
/// out a record with the identifier of that record.
pub proof fn lemma_rebuilt_index_recalls_record(
    namespace: Seq<char>,
    lines: Seq<crate::log::LogLineView>,
    args: crate::model::RecallArgsView,
    at: int,
)
    requires
        lines.len() <= u32::MAX,
        total_length(lines) <= u64::MAX,
        0 <= at < lines.len(),
        lines[at].record is Some,
        normalized(args.keywords).len() == 0,
        args.start is None,
        args.end is None,
        args.query is None,
        args.limit >= crate::log::records_in(lines),
    ensures
        ({
            let index = with_lines(IndexDataView::empty(namespace), lines).settled();
            let found = recalled(index, args, records_of(lines));
            &&& index.wf()
            &&& found is Ok
            &&& exists|i: int|
                0 <= i < found->Ok_0.len() && (#[trigger] found->Ok_0[i]).out.id
                    == lines[at].record->0.id
        }),
{
    let empty = IndexDataView::empty(namespace);
    let built = with_lines(empty, lines);
    let index = built.settled();
    let records = records_of(lines);
    assert(empty.wf() && empty.covers_items());
    crate::log::lemma_with_lines_consistent(empty, lines);
    crate::log::lemma_with_lines_extent(empty, lines);
    crate::index::lemma_settled_wf(built);
    assert(names_all(empty));
    lemma_with_lines_names_all(empty, lines);
    assert(names_all(index)) by {
        crate::index::lemma_by_time(built.items, built.time_sorted);
        assert forall|x: u32| x < index.items.len() implies #[trigger] index.time_sorted.contains(
            x,
        ) by {
            assert(built.time_sorted.contains(x));
        }
    }
    assert(reads_back(empty, Seq::<Option<MemoryItemView>>::empty()));
    lemma_lines_read_back(empty, Seq::<Option<MemoryItemView>>::empty(), lines);
    assert(Seq::<Option<MemoryItemView>>::empty() + records == records);
    lemma_records_of_all_some(lines);
    assert forall|x: u32| x < index.items.len() implies (#[trigger] record_at(
        records,
        x,
    )) is Some by {
        assert(records[x as int] is Some);
    }
    lemma_recall_finds_all(index, args, records);
    crate::log::lemma_items_match_lines(empty, lines, at);
    let k = crate::log::records_in(lines.take(at)) as int;
    let found = recalled(index, args, records);
    crate::log::lemma_records_in_prefix(lines, at);
    assert(crate::recall::hands_out(found->Ok_0, k as u32));
    let i = choose|i: int| 0 <= i < found->Ok_0.len() && (#[trigger] found->Ok_0[i]).idx == k as u32;
    assert(reads_back(index, records)) by {
        assert forall|j: int|
            0 <= j < index.items.len() && j < records.len() && records[j] is Some implies (
        #[trigger] index.items[j]) == entry_for(
            records[j]->0,
            index.items[j].offset,
            index.items[j].length,
        ) by {
            assert(index.items[j] == built.items[j]);
        }
    }
    crate::recall::lemma_hits_read_back(index, args, records);
    assert(found->Ok_0[i].out.id == index.items[k].id);
}

/// Each of the records that lines hold is a record.
pub proof fn lemma_records_of_all_some(lines: Seq<crate::log::LogLineView>)
    ensures
        forall|i: int| 0 <= i < records_of(lines).len() ==> (#[trigger] records_of(lines)[i]) is Some,
    decreases lines.len(),
{
    if lines.len() > 0 {
        lemma_records_of_all_some(lines.drop_last());
        let before = records_of(lines.drop_last());
        assert forall|i: int| 0 <= i < records_of(lines).len() implies (#[trigger] records_of(
            lines,
        )[i]) is Some by {
            if i < before.len() {
                assert(records_of(lines)[i] == before[i]);
            }
        }
    }
}

} // verus!
