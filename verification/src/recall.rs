//! The recall engine: which records a request reaches, in which order they
//! are visited, which of them are admitted, and in what shape they are
//! handed out.

use vstd::prelude::*;
use vstd::string::*;
use crate::error::MemoryError;
use crate::log::{entry_for, text_time_key};
use crate::index::{
    filed_by_keywords, ascending, key_of, lemma_posting_at, posting_at, records_with, rising, IndexData, IndexDataView, IndexItemView, PostingView,
};
use crate::keywords::{has_keyword, listed, normalize_keywords, normalized, sort_keywords};
use crate::model::{
    outs, MemoryItem, MemoryItemView, RecallArgs, RecallArgsView, RecallItemOut,
    RecallItemOutView,
};
use crate::order::{in_order, lemma_ranked, lemma_ranked_contains, rank, ranked, views, Ranked};
use crate::query::{
    earlier_of, in_time_range, later_of, max_opt_i64, min_opt_i64, parse_query_time_expr,
    query_reading, within_range,
};
use crate::text::{
    chars_of, contains, contains_text, copy_opt_text, copy_texts, lowercase, opt_text, push_all,
    texts, unicode_lowercase,
};
use crate::time::{parse_time_to_ts_and_canonical, time_reading, DateBoundKind};

verus! {

/// The positions of `order` whose time key lies in the range, the last
/// position first.
pub open spec fn newest_first(
    items: Seq<IndexItemView>,
    order: Seq<u32>,
    start: Option<i64>,
    end: Option<i64>,
) -> Seq<u32>
    decreases order.len(),
{
    if order.len() == 0 {
        Seq::empty()
    } else {
        let later = newest_first(items, order.drop_first(), start, end);
        if within_range(key_of(items, order[0]), start, end) {
            later.push(order[0])
        } else {
            later
        }
    }
}

/// The number of the given keywords under which the record at `idx` is
/// filed.
pub open spec fn hit_count(postings: Seq<PostingView>, keywords: Seq<Seq<char>>, idx: u32) -> nat
    decreases keywords.len(),
{
    if keywords.len() == 0 {
        0
    } else {
        hit_count(postings, keywords.drop_last(), idx) + if records_with(
            postings,
            keywords.last(),
        ).contains(idx) {
            1nat
        } else {
            0nat
        }
    }
}

/// A record never matches more keywords than are asked for.
pub proof fn lemma_hit_count_bound(postings: Seq<PostingView>, keywords: Seq<Seq<char>>, idx: u32)
    ensures
        hit_count(postings, keywords, idx) <= keywords.len(),
    decreases keywords.len(),
{
    if keywords.len() > 0 {
        lemma_hit_count_bound(postings, keywords.drop_last(), idx);
    }
}

/// A record that a keyword request reaches, with what it is ranked by.
#[derive(Debug, Clone, Copy)]
pub struct Scored {
    /// The position of the record in the index.
    pub idx: u32,
    /// How many of the requested keywords the record matches.
    pub hits: usize,
    /// The importance of the record; 0 where it has none.
    pub importance: u8,
    /// The time key of the record.
    pub time_key: i64,
}

impl View for Scored {
    type V = Scored;

    open spec fn view(&self) -> Scored {
        *self
    }
}

impl Ranked for Scored {
    /// More hits first; of equal hits the more important first; of equal
    /// importance the later in time first.
    open spec fn may_precede(a: Scored, b: Scored) -> bool {
        a.hits > b.hits || (a.hits == b.hits && (a.importance > b.importance || (a.importance
            == b.importance && a.time_key >= b.time_key)))
    }

    fn precedes(&self, other: &Self) -> (r: bool) {
        self.hits > other.hits || (self.hits == other.hits && (self.importance > other.importance
            || (self.importance == other.importance && self.time_key >= other.time_key)))
    }

    proof fn lemma_total(a: Scored, b: Scored) {
    }

    proof fn lemma_transitive(a: Scored, b: Scored, c: Scored) {
    }
}

/// The importance that a record is ranked by.
pub open spec fn rank_importance(importance: Option<u8>) -> u8 {
    match importance {
        Some(n) => n,
        None => 0,
    }
}

/// What the record at position `idx` is ranked by under the given keywords.
pub open spec fn score_of(index: IndexDataView, keywords: Seq<Seq<char>>, idx: u32) -> Scored {
    Scored {
        idx,
        hits: hit_count(index.postings, keywords, idx) as usize,
        importance: rank_importance(index.items[idx as int].importance),
        time_key: key_of(index.items, idx),
    }
}

/// The records among the first `n` that match at least one of the keywords
/// and lie in the time range, in the order of the index.
pub open spec fn matching(
    index: IndexDataView,
    keywords: Seq<Seq<char>>,
    start: Option<i64>,
    end: Option<i64>,
    n: nat,
) -> Seq<Scored>
    decreases n,
{
    if n == 0 {
        Seq::empty()
    } else {
        let before = matching(index, keywords, start, end, (n - 1) as nat);
        let idx = (n - 1) as u32;
        if hit_count(index.postings, keywords, idx) > 0 && within_range(
            key_of(index.items, idx),
            start,
            end,
        ) {
            before.push(score_of(index, keywords, idx))
        } else {
            before
        }
    }
}

/// The records that match at least one of the keywords and lie in the time
/// range, the best first: by hits, then importance, then time, each
/// descending; records that tie in all three keep the order of the index.
pub open spec fn best_first(
    index: IndexDataView,
    keywords: Seq<Seq<char>>,
    start: Option<i64>,
    end: Option<i64>,
) -> Seq<Scored> {
    ranked::<Scored>(matching(index, keywords, start, end, index.items.len()))
}

/// The positions of a sequence of scored records.
pub open spec fn positions(scored: Seq<Scored>) -> Seq<u32> {
    Seq::new(scored.len(), |i: int| scored[i].idx)
}

/// What a recall has settled before it reads any record.
#[derive(Debug, Clone)]
pub struct RecallPlan {
    /// The positions of the records to visit, in the order of the visit.
    pub candidates: Vec<u32>,
    /// The normalized keywords of the request; `None` where it has none.
    pub keywords: Option<Vec<String>>,
    /// The text to search for, in lower case; `None` where there is none.
    pub query: Option<String>,
    /// How many records to hand out at most.
    pub limit: usize,
    /// Whether the diary is handed out.
    pub include_diary: bool,
}

/// A plan, as a mathematical value.
pub struct RecallPlanView {
    pub candidates: Seq<u32>,
    pub keywords: Option<Seq<Seq<char>>>,
    pub query: Option<Seq<char>>,
    pub limit: usize,
    pub include_diary: bool,
}

impl View for RecallPlan {
    type V = RecallPlanView;

    open spec fn view(&self) -> RecallPlanView {
        RecallPlanView {
            candidates: self.candidates@,
            keywords: match self.keywords {
                Some(k) => Some(texts(k@)),
                None => None,
            },
            query: opt_text(self.query),
            limit: self.limit,
            include_diary: self.include_diary,
        }
    }
}

/// The bound that an optional time text sets: none where there is no text,
/// and an error where the text does not read.
pub open spec fn bound_of(text: Option<Seq<char>>, bound: DateBoundKind) -> Result<
    Option<i64>,
    MemoryError,
> {
    match text {
        None => Ok(None),
        Some(t) => match time_reading(t, bound) {
            Ok(m) => Ok(Some(m.secs)),
            Err(e) => Err(e),
        },
    }
}

/// Whether a range is empty: its start lies behind its end.
pub open spec fn is_empty_range(start: Option<i64>, end: Option<i64>) -> bool {
    start is Some && end is Some && start->0 > end->0
}

/// The plan of a recall over a settled index.
///
/// The range is the one that the `start` and `end` of the request and the
/// time expressions of its query leave together. A request without
/// keywords visits the records in the range, the latest first; one with
/// keywords visits the records in the range that match a keyword, the best
/// first. A `start` that does not read is reported before an `end` that
/// does not.
pub open spec fn planned(index: IndexDataView, args: RecallArgsView) -> Result<
    RecallPlanView,
    MemoryError,
> {
    let keywords = normalized(args.keywords);
    let query = query_reading(args.query);
    match bound_of(args.start, DateBoundKind::Start) {
        Err(e) => Err(e),
        Ok(s) => match bound_of(args.end, DateBoundKind::End) {
            Err(e) => Err(e),
            Ok(e) => {
                let start = later_of(s, query.start);
                let end = earlier_of(e, query.end);
                Ok(
                    RecallPlanView {
                        candidates: if is_empty_range(start, end) {
                            Seq::empty()
                        } else if keywords.len() == 0 {
                            newest_first(index.items, index.time_sorted, start, end)
                        } else {
                            positions(best_first(index, keywords, start, end))
                        },
                        keywords: if keywords.len() == 0 {
                            None
                        } else {
                            Some(keywords)
                        },
                        query: query.text,
                        limit: args.limit,
                        include_diary: args.include_diary,
                    },
                )
            },
        },
    }
}

/// The text of a record in which a query is searched for: its slice, its
/// diary and its source, each in lower case, one to a line.
pub open spec fn haystack(record: MemoryItemView) -> Seq<char> {
    unicode_lowercase(record.slice) + seq!['\n'] + unicode_lowercase(record.diary) + seq!['\n']
        + unicode_lowercase(
        match record.source {
            Some(s) => s,
            None => Seq::empty(),
        },
    )
}

/// The members of `keywords` that are among `wanted`, in order.
pub open spec fn kept(keywords: Seq<Seq<char>>, wanted: Seq<Seq<char>>) -> Seq<Seq<char>>
    decreases keywords.len(),
{
    if keywords.len() == 0 {
        Seq::empty()
    } else if wanted.contains(keywords.last()) {
        kept(keywords.drop_last(), wanted).push(keywords.last())
    } else {
        kept(keywords.drop_last(), wanted)
    }
}

/// A record in the shape in which it is handed out: the keywords of the
/// request that it carries are listed where the request has keywords, and
/// the diary is there where it is asked for.
pub open spec fn shaped(
    record: MemoryItemView,
    keywords: Option<Seq<Seq<char>>>,
    include_diary: bool,
) -> RecallItemOutView {
    RecallItemOutView {
        id: record.id,
        recorded_at: record.recorded_at,
        occurred_at: record.occurred_at,
        keywords: record.keywords,
        matched_keywords: match keywords {
            Some(wanted) => Some(listed(kept(record.keywords, wanted))),
            None => None,
        },
        slice: record.slice,
        diary: if include_diary {
            Some(record.diary)
        } else {
            None
        },
        importance: record.importance,
        source: record.source,
    }
}

/// What becomes of a record that was read for a recall: it is handed out,
/// in shape, unless a text is searched for that the record does not hold.
pub open spec fn admitted(
    record: MemoryItemView,
    keywords: Option<Seq<Seq<char>>>,
    query: Option<Seq<char>>,
    include_diary: bool,
) -> Option<RecallItemOutView> {
    if query is Some && !contains_text(haystack(record), query->0) {
        None
    } else {
        Some(shaped(record, keywords, include_diary))
    }
}

/// The record that was read back for position `idx`, if it could be read.
pub open spec fn record_at(records: Seq<Option<MemoryItemView>>, idx: u32) -> Option<
    MemoryItemView,
> {
    if idx < records.len() {
        records[idx as int]
    } else {
        None
    }
}

/// A record that a recall hands out, with the place it had in the visit.
pub struct Hit {
    /// The place of the record among the candidates.
    pub at: int,
    /// The position of the record in the index.
    pub idx: u32,
    /// The record as it is handed out.
    pub out: RecallItemOutView,
}

/// What a visit of the first `upto` candidates hands out.
///
/// The candidates are visited in order until as many records are admitted
/// as the limit allows. A candidate whose record cannot be read ends the
/// visit with an error, unless the limit was reached before.
pub open spec fn visit(
    plan: RecallPlanView,
    records: Seq<Option<MemoryItemView>>,
    upto: nat,
) -> Result<Seq<Hit>, MemoryError>
    decreases upto,
{
    if upto == 0 {
        Ok(Seq::empty())
    } else {
        match visit(plan, records, (upto - 1) as nat) {
            Err(e) => Err(e),
            Ok(got) => if got.len() >= plan.limit {
                Ok(got)
            } else {
                let idx = plan.candidates[upto - 1];
                match record_at(records, idx) {
                    None => Err(MemoryError::RecordUnreadable),
                    Some(record) => match admitted(
                        record,
                        plan.keywords,
                        plan.query,
                        plan.include_diary,
                    ) {
                        Some(out) => Ok(got.push(Hit { at: upto - 1, idx, out })),
                        None => Ok(got),
                    },
                }
            },
        }
    }
}

/// The records that a sequence of hits hands out.
pub open spec fn handed_out(hits: Seq<Hit>) -> Seq<RecallItemOutView> {
    Seq::new(hits.len(), |i: int| hits[i].out)
}

/// What a recall returns over a settled index, given the records that the
/// positions of the index read back as.
pub open spec fn recalled(
    index: IndexDataView,
    args: RecallArgsView,
    records: Seq<Option<MemoryItemView>>,
) -> Result<Seq<Hit>, MemoryError> {
    match planned(index, args) {
        Err(e) => Err(e),
        Ok(plan) => visit(plan, records, plan.candidates.len()),
    }
}

/// Once the limit is reached, visiting more candidates changes nothing.
pub proof fn lemma_visit_full(
    plan: RecallPlanView,
    records: Seq<Option<MemoryItemView>>,
    upto: nat,
    more: nat,
)
    requires
        upto <= more,
        visit(plan, records, upto) is Ok,
        visit(plan, records, upto)->Ok_0.len() >= plan.limit,
    ensures
        visit(plan, records, more) == visit(plan, records, upto),
    decreases more,
{
    if upto < more {
        lemma_visit_full(plan, records, upto, (more - 1) as nat);
    }
}

/// The hits of a visit stand in the order of the candidates: each hit is a
/// candidate that was visited, a later hit was visited later, no more hits
/// are handed out than the limit allows, and each hit is its record,
/// admitted and in shape.
pub proof fn lemma_visit_order(
    plan: RecallPlanView,
    records: Seq<Option<MemoryItemView>>,
    upto: nat,
)
    requires
        upto <= plan.candidates.len(),
        visit(plan, records, upto) is Ok,
    ensures
        ({
            let hits = visit(plan, records, upto)->Ok_0;
            &&& hits.len() <= plan.limit
            &&& hits.len() <= upto
            &&& forall|i: int|
                0 <= i < hits.len() ==> {
                    &&& 0 <= (#[trigger] hits[i]).at < upto
                    &&& hits[i].idx == plan.candidates[hits[i].at]
                    &&& record_at(records, hits[i].idx) is Some
                    &&& admitted(
                        record_at(records, hits[i].idx)->0,
                        plan.keywords,
                        plan.query,
                        plan.include_diary,
                    ) == Some(hits[i].out)
                }
            &&& forall|i: int, j: int|
                #![trigger hits[i], hits[j]]
                0 <= i < j < hits.len() ==> hits[i].at < hits[j].at
        }),
    decreases upto,
{
    if upto > 0 {
        lemma_visit_order(plan, records, (upto - 1) as nat);
    }
}

/// The latest-first order holds exactly the positions of `order` that lie
/// in the range.
pub proof fn lemma_newest_first_members(
    items: Seq<IndexItemView>,
    order: Seq<u32>,
    start: Option<i64>,
    end: Option<i64>,
    x: u32,
)
    ensures
        newest_first(items, order, start, end).contains(x) <==> order.contains(x) && within_range(
            key_of(items, x),
            start,
            end,
        ),
    decreases order.len(),
{
    let out = newest_first(items, order, start, end);
    if order.len() > 0 {
        let rest = order.drop_first();
        let later = newest_first(items, rest, start, end);
        lemma_newest_first_members(items, rest, start, end, x);
        if out.contains(x) {
            let i = choose|i: int| 0 <= i < out.len() && out[i] == x;
            if i < later.len() {
                assert(later[i] == x);
                assert(later.contains(x));
                let k = choose|k: int| 0 <= k < rest.len() && rest[k] == x;
                assert(order[k + 1] == x);
            } else {
                assert(order[0] == x);
            }
        }
        if order.contains(x) && within_range(key_of(items, x), start, end) {
            let k = choose|k: int| 0 <= k < order.len() && order[k] == x;
            if k == 0 {
                assert(out[out.len() - 1] == x);
            } else {
                assert(rest[k - 1] == x);
                assert(rest.contains(x));
                let i = choose|i: int| 0 <= i < later.len() && later[i] == x;
                assert(out[i] == x);
            }
        }
    }
}

/// Where `order` ascends in time, the latest-first order descends.
pub proof fn lemma_newest_first_descends(
    items: Seq<IndexItemView>,
    order: Seq<u32>,
    start: Option<i64>,
    end: Option<i64>,
)
    requires
        ascending(items, order),
    ensures
        forall|i: int, j: int|
            #![trigger newest_first(items, order, start, end)[i], newest_first(items, order, start, end)[j]]
            0 <= i < j < newest_first(items, order, start, end).len() ==> key_of(
                items,
                newest_first(items, order, start, end)[i],
            ) >= key_of(items, newest_first(items, order, start, end)[j]),
    decreases order.len(),
{
    let out = newest_first(items, order, start, end);
    if order.len() > 0 {
        let rest = order.drop_first();
        let later = newest_first(items, rest, start, end);
        assert(ascending(items, rest)) by {
            assert forall|i: int, j: int|
                #![trigger rest[i], rest[j]]
                0 <= i < j < rest.len() implies key_of(items, rest[i]) <= key_of(items, rest[j]) by {
                assert(rest[i] == order[i + 1] && rest[j] == order[j + 1]);
            }
        }
        lemma_newest_first_descends(items, rest, start, end);
        assert forall|i: int, j: int|
            #![trigger out[i], out[j]]
            0 <= i < j < out.len() implies key_of(items, out[i]) >= key_of(items, out[j]) by {
            if j < later.len() {
                assert(out[i] == later[i] && out[j] == later[j]);
            } else {
                assert(out[j] == order[0]);
                assert(later[i] == out[i]);
                assert(later.contains(out[i]));
                lemma_newest_first_members(items, rest, start, end, out[i]);
                let k = choose|k: int| 0 <= k < rest.len() && rest[k] == out[i];
                assert(order[k + 1] == out[i]);
                assert(key_of(items, order[0]) <= key_of(items, order[k + 1]));
            }
        }
    }
}

/// Each record that matches is scored as itself: the matching records are
/// positions below `n`, each with its own score, positive hits and a time
/// key in the range.
pub proof fn lemma_matching(
    index: IndexDataView,
    keywords: Seq<Seq<char>>,
    start: Option<i64>,
    end: Option<i64>,
    n: nat,
)
    ensures
        forall|i: int|
            0 <= i < matching(index, keywords, start, end, n).len() ==> {
                let s = #[trigger] matching(index, keywords, start, end, n)[i];
                &&& s.idx < n
                &&& s == score_of(index, keywords, s.idx)
                &&& hit_count(index.postings, keywords, s.idx) > 0
                &&& within_range(key_of(index.items, s.idx), start, end)
            },
        matching(index, keywords, start, end, n).len() <= n,
    decreases n,
{
    if n > 0 {
        lemma_matching(index, keywords, start, end, (n - 1) as nat);
        let before = matching(index, keywords, start, end, (n - 1) as nat);
        let all = matching(index, keywords, start, end, n);
        assert forall|i: int| 0 <= i < all.len() implies {
            let s = #[trigger] all[i];
            &&& s.idx < n
            &&& s == score_of(index, keywords, s.idx)
            &&& hit_count(index.postings, keywords, s.idx) > 0
            &&& within_range(key_of(index.items, s.idx), start, end)
        } by {
            if i < before.len() {
                assert(all[i] == before[i]);
            }
        }
    }
}

/// The best-first order is in ranked order, and each of its members is a
/// matching record with its own score.
pub proof fn lemma_best_first(
    index: IndexDataView,
    keywords: Seq<Seq<char>>,
    start: Option<i64>,
    end: Option<i64>,
)
    ensures
        in_order::<Scored>(best_first(index, keywords, start, end)),
        forall|i: int|
            0 <= i < best_first(index, keywords, start, end).len() ==> {
                let s = #[trigger] best_first(index, keywords, start, end)[i];
                &&& s.idx < index.items.len()
                &&& s == score_of(index, keywords, s.idx)
                &&& hit_count(index.postings, keywords, s.idx) > 0
                &&& within_range(key_of(index.items, s.idx), start, end)
            },
{
    let m = matching(index, keywords, start, end, index.items.len());
    let b = best_first(index, keywords, start, end);
    lemma_ranked::<Scored>(m);
    lemma_matching(index, keywords, start, end, index.items.len());
    assert forall|i: int| 0 <= i < b.len() implies {
        let s = #[trigger] b[i];
        &&& s.idx < index.items.len()
        &&& s == score_of(index, keywords, s.idx)
        &&& hit_count(index.postings, keywords, s.idx) > 0
        &&& within_range(key_of(index.items, s.idx), start, end)
    } by {
        lemma_ranked_contains::<Scored>(m, b[i]);
        assert(b.contains(b[i]));
        let k = choose|k: int| 0 <= k < m.len() && m[k] == b[i];
        assert(m[k] == b[i]);
    }
}

/// Once a visit has failed, visiting more candidates changes nothing.
pub proof fn lemma_visit_failed(
    plan: RecallPlanView,
    records: Seq<Option<MemoryItemView>>,
    upto: nat,
    more: nat,
)
    requires
        upto <= more,
        visit(plan, records, upto) is Err,
    ensures
        visit(plan, records, more) == visit(plan, records, upto),
    decreases more,
{
    if upto < more {
        lemma_visit_failed(plan, records, upto, (more - 1) as nat);
    }
}

/// The views of the records that were read back.
pub open spec fn record_views(records: Seq<Option<MemoryItem>>) -> Seq<Option<MemoryItemView>> {
    Seq::new(
        records.len(),
        |i: int|
            match records[i] {
                Some(item) => Some(item@),
                None => None,
            },
    )
}

/// The members of `keywords` that are among `wanted`, in order.
fn keep_wanted(keywords: &Vec<String>, wanted: &Vec<String>) -> (r: Vec<String>)
    ensures
        texts(r@) == kept(texts(keywords@), texts(wanted@)),
{
    let mut out: Vec<String> = Vec::new();
    let mut i: usize = 0;
    assert(texts(keywords@).take(0) == Seq::<Seq<char>>::empty());
    while i < keywords.len()
        invariant
            i <= keywords.len(),
            texts(out@) == kept(texts(keywords@).take(i as int), texts(wanted@)),
        decreases keywords.len() - i,
    {
        proof {
            assert(texts(keywords@).take(i + 1).drop_last() == texts(keywords@).take(i as int));
            assert(texts(keywords@).take(i + 1).last() == keywords@[i as int]@);
        }
        if has_keyword(wanted, &keywords[i]) {
            let ghost before = texts(out@);
            out.push(keywords[i].clone());
            assert(texts(out@) == before.push(keywords@[i as int]@));
        }
        i += 1;
    }
    assert(texts(keywords@).take(keywords.len() as int) == texts(keywords@));
    out
}

/// The text of a record in which a query is searched for.
fn haystack_of(record: &MemoryItem) -> (r: Vec<char>)
    ensures
        r@ == haystack(record@),
{
    let mut hay = lowercase(&chars_of(record.slice.as_str()));
    hay.push('\n');
    push_all(&mut hay, &lowercase(&chars_of(record.diary.as_str())));
    hay.push('\n');
    match &record.source {
        Some(s) => push_all(&mut hay, &lowercase(&chars_of(s.as_str()))),
        None => {
            let nothing: Vec<char> = Vec::new();
            assert(nothing@ == Seq::<char>::empty());
            push_all(&mut hay, &lowercase(&nothing));
        },
    }
    hay
}

/// Decides what becomes of a record that was read for a recall.
///
/// A record that could not be read is an error. A record that does not hold
/// the text that is searched for is passed over. Any other record is handed
/// out in shape: with the requested keywords that it carries, in listing
/// order, where keywords were requested, and with its diary only where that
/// is asked for.
pub fn try_load_item_for_recall(
    record: Option<&MemoryItem>,
    keyword_set: Option<&Vec<String>>,
    query: &Option<String>,
    include_diary: bool,
) -> (r: Result<Option<RecallItemOut>, MemoryError>)
    ensures
        record is None ==> r == Err::<Option<RecallItemOut>, MemoryError>(
            MemoryError::RecordUnreadable,
        ),
        record matches Some(item) ==> r is Ok && (match r->Ok_0 {
            Some(out) => Some(out@),
            None => None,
        }) == admitted(
            item@,
            match keyword_set {
                Some(k) => Some(texts(k@)),
                None => None,
            },
            opt_text(*query),
            include_diary,
        ),
{
    let item = match record {
        Some(item) => item,
        None => { return Err(MemoryError::RecordUnreadable); },
    };
    if let Some(q) = query {
        let hay = haystack_of(item);
        if !contains(&hay, &chars_of(q.as_str())) {
            return Ok(None);
        }
    }
    let matched_keywords = match keyword_set {
        Some(wanted) => Some(sort_keywords(&keep_wanted(&item.keywords, wanted))),
        None => None,
    };
    Ok(
        Some(
            RecallItemOut {
                id: item.id.clone(),
                recorded_at: item.recorded_at.clone(),
                occurred_at: copy_opt_text(&item.occurred_at),
                keywords: copy_texts(&item.keywords),
                matched_keywords,
                slice: item.slice.clone(),
                diary: if include_diary {
                    Some(item.diary.clone())
                } else {
                    None
                },
                importance: item.importance,
                source: copy_opt_text(&item.source),
            },
        ),
    )
}

impl IndexData {
    /// The positions of the records whose time key lies in the range, the
    /// last of the time order first.
    pub fn iter_time_candidates(&self, start_ts: Option<i64>, end_ts: Option<i64>) -> (r: Vec<u32>)
        ensures
            r@ == newest_first(self@.items, self@.time_sorted, start_ts, end_ts),
    {
        let n = self.time_sorted.len();
        let mut out: Vec<u32> = Vec::new();
        let mut i: usize = n;
        assert(self@.time_sorted.skip(n as int) == Seq::<u32>::empty());
        while i > 0
            invariant
                i <= n,
                n == self@.time_sorted.len(),
                out@ == newest_first(
                    self@.items,
                    self@.time_sorted.skip(i as int),
                    start_ts,
                    end_ts,
                ),
            decreases i,
        {
            i -= 1;
            let idx = self.time_sorted[i];
            proof {
                assert(self@.time_sorted.skip(i as int).drop_first() == self@.time_sorted.skip(
                    i + 1,
                ));
                assert(self@.time_sorted.skip(i as int)[0] == idx);
            }
            if in_time_range(self.time_key_at(idx), start_ts, end_ts) {
                out.push(idx);
            }
        }
        assert(self@.time_sorted.skip(0) == self@.time_sorted);
        out
    }

    /// For each record, the number of the given keywords under which it is
    /// filed.
    fn count_hits(&self, keywords: &Vec<String>) -> (counts: Vec<usize>)
        requires
            self@.wf(),
        ensures
            counts@.len() == self@.items.len(),
            forall|idx: int|
                0 <= idx < counts@.len() ==> #[trigger] counts@[idx] == hit_count(
                    self@.postings,
                    texts(keywords@),
                    idx as u32,
                ),
    {
        let n = self.items.len();
        let ghost all = texts(keywords@);
        let ghost postings = self@.postings;
        let mut counts: Vec<usize> = Vec::new();
        let mut z: usize = 0;
        while z < n
            invariant
                z <= n,
                counts@.len() == z,
                forall|idx: int| 0 <= idx < z ==> #[trigger] counts@[idx] == 0,
            decreases n - z,
        {
            counts.push(0);
            z += 1;
        }
        let mut k: usize = 0;
        assert(all.take(0) == Seq::<Seq<char>>::empty());
        while k < keywords.len()
            invariant
                k <= keywords.len(),
                self@.wf(),
                n == self@.items.len(),
                all == texts(keywords@),
                postings == self@.postings,
                counts@.len() == n,
                forall|idx: int|
                    0 <= idx < n ==> #[trigger] counts@[idx] == hit_count(
                        postings,
                        all.take(k as int),
                        idx as u32,
                    ),
            decreases keywords.len() - k,
        {
            proof {
                assert(all.take(k + 1).drop_last() == all.take(k as int));
                assert(all.take(k + 1).last() == keywords@[k as int]@);
            }
            let ghost list = records_with(postings, keywords@[k as int]@);
            match self.find_posting(&keywords[k]) {
                Some(p) => {
                    assert(posting_at(postings, keywords@[k as int]@, 0) == p);
                    assert(postings[p as int] == self.keyword_postings@[p as int]@);
                    assert(list == self.keyword_postings@[p as int]@.items);
                    assert(rising(list, n as nat));
                    let items = &self.keyword_postings[p].items;
                    let mut j: usize = 0;
                    assert(list.take(0) == Seq::<u32>::empty());
                    while j < items.len()
                        invariant
                            j <= items.len(),
                            items@ == list,
                            rising(list, n as nat),
                            n <= u32::MAX,
                            k < keywords.len(),
                            all == texts(keywords@),
                            counts@.len() == n,
                            forall|idx: int|
                                0 <= idx < n ==> #[trigger] counts@[idx] == hit_count(
                                    postings,
                                    all.take(k as int),
                                    idx as u32,
                                ) + if list.take(j as int).contains(idx as u32) {
                                    1nat
                                } else {
                                    0nat
                                },
                        decreases items.len() - j,
                    {
                        let t = items[j] as usize;
                        proof {
                            let shorter = list.take(j as int);
                            let longer = list.take(j + 1);
                            lemma_hit_count_bound(postings, all.take(k as int), t as u32);
                            assert(!shorter.contains(list[j as int])) by {
                                if shorter.contains(list[j as int]) {
                                    let a = choose|a: int|
                                        0 <= a < shorter.len() && shorter[a] == list[j as int];
                                    assert(list[a] < list[j as int]);
                                }
                            }
                            assert(longer == shorter.push(list[j as int]));
                            assert forall|x: u32| #[trigger]
                                longer.contains(x) <==> shorter.contains(x) || x
                                    == list[j as int] by {
                                if shorter.contains(x) {
                                    let a = choose|a: int| 0 <= a < shorter.len() && shorter[a] == x;
                                    assert(longer[a] == x);
                                }
                                if x == list[j as int] {
                                    assert(longer[j as int] == x);
                                }
                                if longer.contains(x) {
                                    let a = choose|a: int| 0 <= a < longer.len() && longer[a] == x;
                                    if a < j {
                                        assert(shorter[a] == x);
                                    }
                                }
                            }
                        }
                        assert(t as u32 == list[j as int]);
                        assert(all.take(k as int).len() == k);
                        assert(counts@[t as int] == hit_count(
                            postings,
                            all.take(k as int),
                            t as u32,
                        ));
                        let bumped = counts[t] + 1;
                        counts.set(t, bumped);
                        j += 1;
                    }
                    assert(list.take(items.len() as int) == list);
                },
                None => {
                    proof {
                        lemma_posting_at(postings, keywords@[k as int]@, 0);
                    }
                    assert(list == Seq::<u32>::empty());
                },
            }
            k += 1;
        }
        assert(all.take(keywords.len() as int) == all);
        counts
    }

    /// The records that match at least one of the keywords and lie in the
    /// time range, the best first.
    pub fn rank_matches(
        &self,
        keywords: &Vec<String>,
        start_ts: Option<i64>,
        end_ts: Option<i64>,
    ) -> (r: Vec<Scored>)
        requires
            self@.wf(),
        ensures
            r@ == best_first(self@, texts(keywords@), start_ts, end_ts),
    {
        let counts = self.count_hits(keywords);
        let n = self.items.len();
        let mut found: Vec<Scored> = Vec::new();
        let mut i: usize = 0;
        while i < n
            invariant
                i <= n,
                n == self@.items.len(),
                n <= u32::MAX,
                counts@.len() == n,
                forall|idx: int|
                    0 <= idx < n ==> #[trigger] counts@[idx] == hit_count(
                        self@.postings,
                        texts(keywords@),
                        idx as u32,
                    ),
                found@ == matching(self@, texts(keywords@), start_ts, end_ts, i as nat),
            decreases n - i,
        {
            let hits = counts[i];
            let time_key = self.time_key_at(i as u32);
            assert(self@.items[i as int] == self.items@[i as int]@);
            if hits > 0 && in_time_range(time_key, start_ts, end_ts) {
                let importance = match self.items[i].importance {
                    Some(v) => v,
                    None => 0,
                };
                found.push(Scored { idx: i as u32, hits, importance, time_key });
            }
            i += 1;
        }
        assert(views(found@) == found@);
        let sorted = rank(found);
        assert(views(sorted@) == sorted@);
        sorted
    }
}

/// The bound that an optional time text sets.
fn read_bound(text: &Option<String>, bound: DateBoundKind) -> (r: Result<Option<i64>, MemoryError>)
    ensures
        r == bound_of(opt_text(*text), bound),
{
    match text {
        None => Ok(None),
        Some(t) => match parse_time_to_ts_and_canonical(t.as_str(), bound) {
            Ok(p) => Ok(Some(p.0)),
            Err(e) => Err(e),
        },
    }
}

/// Whether an executable plan is the given one, or the same refusal.
pub open spec fn plan_is(
    r: Result<RecallPlan, MemoryError>,
    m: Result<RecallPlanView, MemoryError>,
) -> bool {
    match m {
        Ok(plan) => r is Ok && r->Ok_0@ == plan,
        Err(e) => r is Err && r->Err_0 == e,
    }
}

/// Settles what a recall will do, before any record is read: the records
/// to visit and their order, the keywords and the text that count, the
/// limit, and whether the diary is handed out.
pub fn plan_recall(index: &IndexData, args: RecallArgs) -> (r: Result<RecallPlan, MemoryError>)
    requires
        index@.wf(),
    ensures
        plan_is(r, planned(index@, args@)),
{
    let keywords = normalize_keywords(copy_texts(&args.keywords));
    let query_text: Option<&str> = match &args.query {
        Some(q) => Some(q.as_str()),
        None => None,
    };
    let (query, query_start, query_end) = parse_query_time_expr(query_text);
    let start_arg = match read_bound(&args.start, DateBoundKind::Start) {
        Ok(b) => b,
        Err(e) => { return Err(e); },
    };
    let end_arg = match read_bound(&args.end, DateBoundKind::End) {
        Ok(b) => b,
        Err(e) => { return Err(e); },
    };
    let start_ts = max_opt_i64(start_arg, query_start);
    let end_ts = min_opt_i64(end_arg, query_end);
    let empty_range = match (start_ts, end_ts) {
        (Some(s), Some(e)) => s > e,
        _ => false,
    };
    let candidates: Vec<u32> = if empty_range {
        Vec::new()
    } else if keywords.len() == 0 {
        index.iter_time_candidates(start_ts, end_ts)
    } else {
        let best = index.rank_matches(&keywords, start_ts, end_ts);
        let mut order: Vec<u32> = Vec::new();
        let mut i: usize = 0;
        while i < best.len()
            invariant
                i <= best.len(),
                order@ == positions(best@).take(i as int),
            decreases best.len() - i,
        {
            order.push(best[i].idx);
            assert(order@ == positions(best@).take(i + 1));
            i += 1;
        }
        assert(positions(best@).take(best.len() as int) == positions(best@));
        order
    };
    let wanted = if keywords.len() == 0 {
        None
    } else {
        Some(keywords)
    };
    Ok(
        RecallPlan {
            candidates,
            keywords: wanted,
            query,
            limit: args.limit,
            include_diary: args.include_diary,
        },
    )
}

impl RecallPlan {
    /// Whether the visit goes on once `collected` records are admitted and
    /// `visited` candidates are behind it.
    pub fn wants_more(&self, visited: usize, collected: usize) -> (r: bool)
        ensures
            r == (visited < self@.candidates.len() && collected < self@.limit),
    {
        visited < self.candidates.len() && collected < self.limit
    }

    /// Decides what becomes of a record that was read for this plan.
    pub fn consider(&self, record: Option<&MemoryItem>) -> (r: Result<
        Option<RecallItemOut>,
        MemoryError,
    >)
        ensures
            record is None ==> r == Err::<Option<RecallItemOut>, MemoryError>(
                MemoryError::RecordUnreadable,
            ),
            record matches Some(item) ==> r is Ok && (match r->Ok_0 {
                Some(out) => Some(out@),
                None => None,
            }) == admitted(item@, self@.keywords, self@.query, self@.include_diary),
    {
        try_load_item_for_recall(
            record,
            match &self.keywords {
                Some(k) => Some(k),
                None => None,
            },
            &self.query,
            self.include_diary,
        )
    }

    /// Carries the plan out over the records that the positions of the
    /// index read back as: `records[i]` is the record of position `i`, and
    /// `None`, or a missing member, stands for a record that cannot be
    /// read.
    pub fn run(&self, records: &Vec<Option<MemoryItem>>) -> (r: Result<
        crate::model::RecallResult,
        MemoryError,
    >)
        ensures
            match visit(self@, record_views(records@), self@.candidates.len()) {
                Ok(hits) => r is Ok && r->Ok_0@ == handed_out(hits) && r->Ok_0.total
                    == hits.len(),
                Err(e) => r is Err && r->Err_0 == e,
            },
    {
        let ghost plan = self@;
        let ghost recs = record_views(records@);
        let n = self.candidates.len();
        let mut results: Vec<RecallItemOut> = Vec::new();
        let ghost mut hits: Seq<Hit> = Seq::empty();
        let mut i: usize = 0;
        assert(outs(results@) == handed_out(hits));
        while self.wants_more(i, results.len())
            invariant
                i <= n,
                n == plan.candidates.len(),
                plan == self@,
                recs == record_views(records@),
                visit(plan, recs, i as nat) == Ok::<Seq<Hit>, MemoryError>(hits),
                outs(results@) == handed_out(hits),
                results@.len() == hits.len(),
            decreases n - i,
        {
            let idx = self.candidates[i];
            let record: Option<&MemoryItem> = if (idx as usize) < records.len() {
                assert(recs[idx as int] == match records@[idx as int] {
                    Some(item) => Some(item@),
                    None => None,
                });
                records[idx as usize].as_ref()
            } else {
                None
            };
            match self.consider(record) {
                Err(e) => {
                    proof {
                        assert(visit(plan, recs, (i + 1) as nat) is Err);
                        lemma_visit_failed(plan, recs, (i + 1) as nat, n as nat);
                    }
                    return Err(e);
                },
                Ok(Some(out)) => {
                    proof {
                        let before = handed_out(hits);
                        hits = hits.push(Hit { at: i as int, idx, out: out@ });
                        assert(handed_out(hits) == before.push(out@));
                    }
                    let ghost shown = outs(results@);
                    let ghost view = out@;
                    results.push(out);
                    assert(outs(results@) == shown.push(view));
                },
                Ok(None) => {},
            }
            i += 1;
        }
        proof {
            if i < n {
                lemma_visit_full(plan, recs, i as nat, n as nat);
            }
        }
        Ok(crate::model::RecallResult::new(results))
    }
}

/// A recall without keywords hands out its records from the latest to the
/// earliest: over a settled, consistent index no record that is handed out
/// has a later time key than one handed out before it.
pub proof fn lemma_keywordless_recall_order(
    index: IndexDataView,
    args: RecallArgsView,
    records: Seq<Option<MemoryItemView>>,
)
    requires
        index.wf(),
        !index.time_sorted_dirty,
        normalized(args.keywords).len() == 0,
        recalled(index, args, records) is Ok,
    ensures
        forall|i: int, j: int|
            #![trigger recalled(index, args, records)->Ok_0[i], recalled(index, args, records)->Ok_0[j]]
            0 <= i < j < recalled(index, args, records)->Ok_0.len() ==> key_of(
                index.items,
                recalled(index, args, records)->Ok_0[i].idx,
            ) >= key_of(index.items, recalled(index, args, records)->Ok_0[j].idx),
{
    let plan = planned(index, args)->Ok_0;
    let hits = recalled(index, args, records)->Ok_0;
    lemma_visit_order(plan, records, plan.candidates.len());
    let query = query_reading(args.query);
    let start = later_of(bound_of(args.start, DateBoundKind::Start)->Ok_0, query.start);
    let end = earlier_of(bound_of(args.end, DateBoundKind::End)->Ok_0, query.end);
    if !is_empty_range(start, end) {
        lemma_newest_first_descends(index.items, index.time_sorted, start, end);
        assert forall|i: int, j: int| #![trigger hits[i], hits[j]] 0 <= i < j < hits.len() implies key_of(
            index.items,
            hits[i].idx,
        ) >= key_of(index.items, hits[j].idx) by {
            assert(hits[i].at < hits[j].at);
            assert(hits[i].idx == plan.candidates[hits[i].at]);
            assert(hits[j].idx == plan.candidates[hits[j].at]);
        }
    }
}

/// A recall with keywords hands out its records from the best to the
/// worst: by the number of requested keywords that a record matches, then
/// by its importance, a record without one counting as 0, then by its time
/// key, each descending.
pub proof fn lemma_keyword_recall_order(
    index: IndexDataView,
    args: RecallArgsView,
    records: Seq<Option<MemoryItemView>>,
)
    requires
        normalized(args.keywords).len() > 0,
        recalled(index, args, records) is Ok,
    ensures
        forall|i: int, j: int|
            #![trigger recalled(index, args, records)->Ok_0[i], recalled(index, args, records)->Ok_0[j]]
            0 <= i < j < recalled(index, args, records)->Ok_0.len() ==> Scored::may_precede(
                score_of(
                    index,
                    normalized(args.keywords),
                    recalled(index, args, records)->Ok_0[i].idx,
                ),
                score_of(
                    index,
                    normalized(args.keywords),
                    recalled(index, args, records)->Ok_0[j].idx,
                ),
            ),
{
    let plan = planned(index, args)->Ok_0;
    let hits = recalled(index, args, records)->Ok_0;
    let keywords = normalized(args.keywords);
    lemma_visit_order(plan, records, plan.candidates.len());
    let query = query_reading(args.query);
    let start = later_of(bound_of(args.start, DateBoundKind::Start)->Ok_0, query.start);
    let end = earlier_of(bound_of(args.end, DateBoundKind::End)->Ok_0, query.end);
    if !is_empty_range(start, end) {
        let best = best_first(index, keywords, start, end);
        lemma_best_first(index, keywords, start, end);
        assert forall|i: int, j: int| #![trigger hits[i], hits[j]] 0 <= i < j < hits.len() implies Scored::may_precede(
            score_of(index, keywords, hits[i].idx),
            score_of(index, keywords, hits[j].idx),
        ) by {
            let a = hits[i].at;
            let b = hits[j].at;
            assert(a < b);
            assert(hits[i].idx == plan.candidates[a]);
            assert(hits[j].idx == plan.candidates[b]);
            assert(best[a] == score_of(index, keywords, best[a].idx));
            assert(best[b] == score_of(index, keywords, best[b].idx));
            assert(Scored::may_precede(best[a], best[b]));
        }
    }
}

/// What every record that a recall hands out has in common: the keywords
/// that it matched are listed exactly when the request has a keyword, that
/// is, when at least one is left of its keywords once they are normalized;
/// its diary is there exactly when the request asks for it; and no more
/// records are handed out than the limit of the request allows.
pub proof fn lemma_recall_shape(
    index: IndexDataView,
    args: RecallArgsView,
    records: Seq<Option<MemoryItemView>>,
)
    requires
        recalled(index, args, records) is Ok,
    ensures
        recalled(index, args, records)->Ok_0.len() <= args.limit,
        forall|i: int|
            0 <= i < recalled(index, args, records)->Ok_0.len() ==> {
                let out = (#[trigger] recalled(index, args, records)->Ok_0[i]).out;
                &&& out.matched_keywords is Some <==> normalized(args.keywords).len() > 0
                &&& out.diary is Some <==> args.include_diary
            },
        args.keywords.len() == 0 ==> normalized(args.keywords).len() == 0,
{
    let plan = planned(index, args)->Ok_0;
    lemma_visit_order(plan, records, plan.candidates.len());
}

/// The range of time that a request leaves, where its times read: the
/// later of its `start` and the starts in its query, and the earlier of its
/// `end` and the ends in its query.
pub open spec fn requested_range(args: RecallArgsView) -> (Option<i64>, Option<i64>) {
    let query = query_reading(args.query);
    (
        later_of(bound_of(args.start, DateBoundKind::Start)->Ok_0, query.start),
        earlier_of(bound_of(args.end, DateBoundKind::End)->Ok_0, query.end),
    )
}

/// Every record that a recall hands out answers the request: it is a record
/// of the index whose time key lies in the requested range; where the
/// request has keywords, it is filed under at least one of them; and where
/// a text is searched for, it holds the text.
pub proof fn lemma_recall_sound(
    index: IndexDataView,
    args: RecallArgsView,
    records: Seq<Option<MemoryItemView>>,
)
    requires
        index.wf(),
        recalled(index, args, records) is Ok,
    ensures
        forall|i: int|
            0 <= i < recalled(index, args, records)->Ok_0.len() ==> {
                let hit = #[trigger] recalled(index, args, records)->Ok_0[i];
                let range = requested_range(args);
                &&& hit.idx < index.items.len()
                &&& within_range(key_of(index.items, hit.idx), range.0, range.1)
                &&& normalized(args.keywords).len() > 0 ==> hit_count(
                    index.postings,
                    normalized(args.keywords),
                    hit.idx,
                ) > 0
                &&& record_at(records, hit.idx) is Some
                &&& query_reading(args.query).text is Some ==> contains_text(
                    haystack(record_at(records, hit.idx)->0),
                    query_reading(args.query).text->0,
                )
            },
{
    let plan = planned(index, args)->Ok_0;
    let hits = recalled(index, args, records)->Ok_0;
    let keywords = normalized(args.keywords);
    let range = requested_range(args);
    lemma_visit_order(plan, records, plan.candidates.len());
    lemma_best_first(index, keywords, range.0, range.1);
    assert forall|i: int| 0 <= i < hits.len() implies {
        let hit = #[trigger] hits[i];
        &&& hit.idx < index.items.len()
        &&& within_range(key_of(index.items, hit.idx), range.0, range.1)
        &&& keywords.len() > 0 ==> hit_count(index.postings, keywords, hit.idx) > 0
        &&& record_at(records, hit.idx) is Some
        &&& query_reading(args.query).text is Some ==> contains_text(
            haystack(record_at(records, hit.idx)->0),
            query_reading(args.query).text->0,
        )
    } by {
        let hit = hits[i];
        assert(hit.idx == plan.candidates[hit.at]);
        assert(!is_empty_range(range.0, range.1));
        if keywords.len() == 0 {
            let order = newest_first(index.items, index.time_sorted, range.0, range.1);
            assert(order.contains(order[hit.at]));
            lemma_newest_first_members(index.items, index.time_sorted, range.0, range.1, hit.idx);
            let k = choose|k: int| 0 <= k < index.time_sorted.len() && index.time_sorted[k] == hit.idx;
            assert(index.time_sorted[k] < index.items.len());
        } else {
            let best = best_first(index, keywords, range.0, range.1);
            assert(best[hit.at].idx == hit.idx);
        }
    }
}

/// Whether the records agree with the index: each record that could be read
/// back is the record that the index entered at its position, so the index
/// keeps of it what `entry_for` makes of it.
pub open spec fn reads_back(index: IndexDataView, records: Seq<Option<MemoryItemView>>) -> bool {
    forall|i: int|
        0 <= i < index.items.len() && i < records.len() && records[i] is Some ==> (
        #[trigger] index.items[i]) == entry_for(
            records[i]->0,
            index.items[i].offset,
            index.items[i].length,
        )
}

/// The number of the requested keywords that are among the keywords of a
/// record.
pub open spec fn matches(wanted: Seq<Seq<char>>, keywords: Seq<Seq<char>>) -> nat
    decreases wanted.len(),
{
    if wanted.len() == 0 {
        0
    } else {
        matches(wanted.drop_last(), keywords) + if keywords.contains(wanted.last()) {
            1nat
        } else {
            0nat
        }
    }
}

/// In an index that files each record under its own keywords, the hits of a
/// record are the requested keywords that it carries.
pub proof fn lemma_hits_are_matches(index: IndexDataView, wanted: Seq<Seq<char>>, idx: u32)
    requires
        filed_by_keywords(index.items, index.postings),
        idx < index.items.len(),
    ensures
        hit_count(index.postings, wanted, idx) == matches(wanted, index.items[idx as int].keywords),
    decreases wanted.len(),
{
    if wanted.len() > 0 {
        lemma_hits_are_matches(index, wanted.drop_last(), idx);
        assert(records_with(index.postings, wanted.last()).contains(idx)
            <==> index.items[idx as int].keywords.contains(wanted.last()));
    }
}

/// A record that matches a requested keyword carries one.
pub proof fn lemma_matches_witness(wanted: Seq<Seq<char>>, keywords: Seq<Seq<char>>)
    requires
        matches(wanted, keywords) > 0,
    ensures
        exists|k: int| 0 <= k < wanted.len() && keywords.contains(#[trigger] wanted[k]),
    decreases wanted.len(),
{
    if keywords.contains(wanted.last()) {
        assert(keywords.contains(wanted[wanted.len() - 1]));
    } else {
        lemma_matches_witness(wanted.drop_last(), keywords);
        let k = choose|k: int|
            0 <= k < wanted.drop_last().len() && keywords.contains(#[trigger] wanted.drop_last()[k]);
        assert(wanted[k] == wanted.drop_last()[k]);
    }
}

/// The keywords of a record that are wanted are kept: as many as there are,
/// and at least one where the record carries a wanted keyword.
pub proof fn lemma_kept_member(keywords: Seq<Seq<char>>, wanted: Seq<Seq<char>>, keyword: Seq<char>)
    requires
        keywords.contains(keyword),
        wanted.contains(keyword),
    ensures
        kept(keywords, wanted).len() > 0,
    decreases keywords.len(),
{
    if keywords.last() != keyword {
        let i = choose|i: int| 0 <= i < keywords.len() && keywords[i] == keyword;
        assert(keywords.drop_last()[i] == keyword);
        lemma_kept_member(keywords.drop_last(), wanted, keyword);
    }
}

/// What a recalled record is ranked by when it is read by itself: the number
/// of the requested keywords among its own, normalized, its importance, 0
/// where it has none, and the time key that its texts give it.
pub open spec fn own_score(wanted: Seq<Seq<char>>, out: RecallItemOutView) -> Scored {
    Scored {
        idx: 0,
        hits: matches(wanted, normalized(out.keywords)) as usize,
        importance: rank_importance(out.importance),
        time_key: text_time_key(out.recorded_at, out.occurred_at),
    }
}

/// Each record that a recall hands out is the record that was read for its
/// position, in shape; and where the records agree with the index, the
/// index ranks it by what the record itself says.
pub proof fn lemma_hits_read_back(
    index: IndexDataView,
    args: RecallArgsView,
    records: Seq<Option<MemoryItemView>>,
)
    requires
        index.wf(),
        reads_back(index, records),
        recalled(index, args, records) is Ok,
    ensures
        forall|i: int|
            0 <= i < recalled(index, args, records)->Ok_0.len() ==> {
                let hit = #[trigger] recalled(index, args, records)->Ok_0[i];
                let wanted = normalized(args.keywords);
                &&& hit.idx < index.items.len()
                &&& record_at(records, hit.idx) is Some
                &&& hit.out.id == record_at(records, hit.idx)->0.id
                &&& hit.out.keywords == record_at(records, hit.idx)->0.keywords
                &&& hit.out.id == index.items[hit.idx as int].id
                &&& key_of(index.items, hit.idx) == text_time_key(
                    hit.out.recorded_at,
                    hit.out.occurred_at,
                )
                &&& rank_importance(index.items[hit.idx as int].importance) == rank_importance(
                    hit.out.importance,
                )
                &&& hit_count(index.postings, wanted, hit.idx) == matches(
                    wanted,
                    normalized(hit.out.keywords),
                )
            },
{
    let plan = planned(index, args)->Ok_0;
    let hits = recalled(index, args, records)->Ok_0;
    let wanted = normalized(args.keywords);
    lemma_visit_order(plan, records, plan.candidates.len());
    lemma_recall_sound(index, args, records);
    assert forall|i: int| 0 <= i < hits.len() implies {
        let hit = #[trigger] hits[i];
        &&& hit.idx < index.items.len()
        &&& record_at(records, hit.idx) is Some
        &&& hit.out.id == record_at(records, hit.idx)->0.id
        &&& hit.out.keywords == record_at(records, hit.idx)->0.keywords
        &&& hit.out.id == index.items[hit.idx as int].id
        &&& key_of(index.items, hit.idx) == text_time_key(hit.out.recorded_at, hit.out.occurred_at)
        &&& rank_importance(index.items[hit.idx as int].importance) == rank_importance(
            hit.out.importance,
        )
        &&& hit_count(index.postings, wanted, hit.idx) == matches(
            wanted,
            normalized(hit.out.keywords),
        )
    } by {
        let hit = hits[i];
        let record = record_at(records, hit.idx)->0;
        assert(hit.out == shaped(record, plan.keywords, plan.include_diary));
        assert(index.items[hit.idx as int] == entry_for(
            record,
            index.items[hit.idx as int].offset,
            index.items[hit.idx as int].length,
        ));
        lemma_hits_are_matches(index, wanted, hit.idx);
    }
}

/// A recall without keywords hands out its records from the latest to the
/// earliest, each read by itself: where the records agree with the index, no
/// record that is handed out has texts that give it a later time key than a
/// record handed out before it.
pub proof fn lemma_keywordless_recall_order_of_records(
    index: IndexDataView,
    args: RecallArgsView,
    records: Seq<Option<MemoryItemView>>,
)
    requires
        index.wf(),
        !index.time_sorted_dirty,
        reads_back(index, records),
        normalized(args.keywords).len() == 0,
        recalled(index, args, records) is Ok,
    ensures
        forall|i: int, j: int|
            #![trigger recalled(index, args, records)->Ok_0[i], recalled(index, args, records)->Ok_0[j]]
            0 <= i < j < recalled(index, args, records)->Ok_0.len() ==> text_time_key(
                recalled(index, args, records)->Ok_0[i].out.recorded_at,
                recalled(index, args, records)->Ok_0[i].out.occurred_at,
            ) >= text_time_key(
                recalled(index, args, records)->Ok_0[j].out.recorded_at,
                recalled(index, args, records)->Ok_0[j].out.occurred_at,
            ),
{
    lemma_keywordless_recall_order(index, args, records);
    lemma_hits_read_back(index, args, records);
}

/// A recall with keywords hands out its records from the best to the
/// worst, each read by itself: where the records agree with the index, the
/// records descend by the number of requested keywords among their own
/// keywords, then by their importance, then by the time key of their texts.
pub proof fn lemma_keyword_recall_order_of_records(
    index: IndexDataView,
    args: RecallArgsView,
    records: Seq<Option<MemoryItemView>>,
)
    requires
        index.wf(),
        reads_back(index, records),
        normalized(args.keywords).len() > 0,
        recalled(index, args, records) is Ok,
    ensures
        forall|i: int, j: int|
            #![trigger recalled(index, args, records)->Ok_0[i], recalled(index, args, records)->Ok_0[j]]
            0 <= i < j < recalled(index, args, records)->Ok_0.len() ==> Scored::may_precede(
                own_score(normalized(args.keywords), recalled(index, args, records)->Ok_0[i].out),
                own_score(normalized(args.keywords), recalled(index, args, records)->Ok_0[j].out),
            ),
{
    let hits = recalled(index, args, records)->Ok_0;
    let wanted = normalized(args.keywords);
    lemma_keyword_recall_order(index, args, records);
    lemma_hits_read_back(index, args, records);
    assert forall|i: int, j: int| #![trigger hits[i], hits[j]] 0 <= i < j < hits.len() implies Scored::may_precede(
        own_score(wanted, hits[i].out),
        own_score(wanted, hits[j].out),
    ) by {
        let a = score_of(index, wanted, hits[i].idx);
        let b = score_of(index, wanted, hits[j].idx);
        assert(Scored::may_precede(a, b));
        assert(a.hits == own_score(wanted, hits[i].out).hits);
        assert(b.hits == own_score(wanted, hits[j].out).hits);
        assert(a.time_key == own_score(wanted, hits[i].out).time_key);
        assert(b.time_key == own_score(wanted, hits[j].out).time_key);
        assert(a.importance == own_score(wanted, hits[i].out).importance);
        assert(b.importance == own_score(wanted, hits[j].out).importance);
    }
}

/// A recall with keywords lists at least one matched keyword for each
/// record whose own keywords are in normal form: where the records agree
/// with the index, such a record carries a requested keyword, and the list
/// of its matched keywords is not empty.
pub proof fn lemma_matched_keywords_not_empty(
    index: IndexDataView,
    args: RecallArgsView,
    records: Seq<Option<MemoryItemView>>,
    i: int,
)
    requires
        index.wf(),
        reads_back(index, records),
        normalized(args.keywords).len() > 0,
        recalled(index, args, records) is Ok,
        0 <= i < recalled(index, args, records)->Ok_0.len(),
        normalized(recalled(index, args, records)->Ok_0[i].out.keywords) == recalled(
            index,
            args,
            records,
        )->Ok_0[i].out.keywords,
    ensures
        recalled(index, args, records)->Ok_0[i].out.matched_keywords is Some,
        recalled(index, args, records)->Ok_0[i].out.matched_keywords->0.len() > 0,
        recalled(index, args, records)->Ok_0[i].out.matched_keywords->0 == listed(
            kept(recalled(index, args, records)->Ok_0[i].out.keywords, normalized(args.keywords)),
        ),
{
    let plan = planned(index, args)->Ok_0;
    let hit = recalled(index, args, records)->Ok_0[i];
    let wanted = normalized(args.keywords);
    lemma_visit_order(plan, records, plan.candidates.len());
    lemma_recall_sound(index, args, records);
    lemma_hits_read_back(index, args, records);
    let record = record_at(records, hit.idx)->0;
    assert(hit.out == shaped(record, plan.keywords, plan.include_diary));
    assert(matches(wanted, hit.out.keywords) > 0);
    lemma_matches_witness(wanted, hit.out.keywords);
    let k = choose|k: int| 0 <= k < wanted.len() && hit.out.keywords.contains(#[trigger] wanted[k]);
    assert(wanted.contains(wanted[k]));
    lemma_kept_member(hit.out.keywords, wanted, wanted[k]);
    lemma_ranked::<crate::keywords::Word>(kept(hit.out.keywords, wanted));
}

/// Without bounds the latest-first order leaves no position out.
pub proof fn lemma_newest_first_unbounded(items: Seq<IndexItemView>, order: Seq<u32>)
    ensures
        newest_first(items, order, None, None).len() == order.len(),
    decreases order.len(),
{
    if order.len() > 0 {
        lemma_newest_first_unbounded(items, order.drop_first());
    }
}

/// Where no text is searched for, every record of the first `upto`
/// candidates can be read, and the limit allows as many, the visit hands
/// out each of these candidates, in order.
pub proof fn lemma_visit_all(
    plan: RecallPlanView,
    records: Seq<Option<MemoryItemView>>,
    upto: nat,
)
    requires
        plan.query is None,
        upto <= plan.candidates.len(),
        upto <= plan.limit,
        forall|k: int| 0 <= k < upto ==> record_at(records, #[trigger] plan.candidates[k]) is Some,
    ensures
        visit(plan, records, upto) is Ok,
        visit(plan, records, upto)->Ok_0.len() == upto,
        forall|k: int|
            0 <= k < upto ==> (#[trigger] visit(plan, records, upto)->Ok_0[k]).idx
                == plan.candidates[k],
    decreases upto,
{
    if upto > 0 {
        lemma_visit_all(plan, records, (upto - 1) as nat);
        let before = visit(plan, records, (upto - 1) as nat)->Ok_0;
        let now = visit(plan, records, upto)->Ok_0;
        assert(record_at(records, plan.candidates[upto - 1]) is Some);
        assert forall|k: int| 0 <= k < upto implies (#[trigger] now[k]).idx
            == plan.candidates[k] by {
            if k < upto - 1 {
                assert(now[k] == before[k]);
            }
        }
    }
}

/// Whether the time order leaves no record of the index out.
pub open spec fn names_all(index: IndexDataView) -> bool {
    forall|x: u32| x < index.items.len() ==> #[trigger] index.time_sorted.contains(x)
}

/// Whether the record at position `x` of the index is among the hits.
pub open spec fn hands_out(hits: Seq<Hit>, x: u32) -> bool {
    exists|i: int| 0 <= i < hits.len() && (#[trigger] hits[i]).idx == x
}

/// A request for everything finds everything.
///
/// Over a settled, consistent index whose time order leaves no record out,
/// a request without keywords, bounds and query, with a limit that is not
/// below the number of records, hands out every record of the index, as
/// long as every record can be read.
pub proof fn lemma_recall_finds_all(
    index: IndexDataView,
    args: RecallArgsView,
    records: Seq<Option<MemoryItemView>>,
)
    requires
        index.wf(),
        !index.time_sorted_dirty,
        names_all(index),
        normalized(args.keywords).len() == 0,
        args.start is None,
        args.end is None,
        args.query is None,
        args.limit >= index.items.len(),
        forall|x: u32| x < index.items.len() ==> (#[trigger] record_at(records, x)) is Some,
    ensures
        recalled(index, args, records) is Ok,
        forall|x: u32|
            x < index.items.len() ==> #[trigger] hands_out(recalled(index, args, records)->Ok_0, x),
{
    let plan = planned(index, args)->Ok_0;
    let order = index.time_sorted;
    assert(plan.candidates == newest_first(index.items, order, None, None));
    lemma_newest_first_unbounded(index.items, order);
    assert forall|k: int| 0 <= k < plan.candidates.len() implies record_at(
        records,
        #[trigger] plan.candidates[k],
    ) is Some by {
        let x = plan.candidates[k];
        assert(plan.candidates.contains(x));
        lemma_newest_first_members(index.items, order, None, None, x);
        let j = choose|j: int| 0 <= j < order.len() && order[j] == x;
        assert(order[j] < index.items.len());
    }
    lemma_visit_all(plan, records, plan.candidates.len());
    let hits = recalled(index, args, records)->Ok_0;
    assert forall|x: u32| x < index.items.len() implies #[trigger] hands_out(hits, x) by {
        assert(order.contains(x));
        lemma_newest_first_members(index.items, order, None, None, x);
        let k = choose|k: int| 0 <= k < plan.candidates.len() && plan.candidates[k] == x;
        assert(hits[k].idx == x);
    }
}

} // verus!
