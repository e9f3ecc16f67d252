//! The index of one namespace: where each record lies in the log, which
//! records carry which keyword, and the records in order of time.

use vstd::prelude::*;
use vstd::string::*;
use crate::keywords::{distinct, has_keyword};
use crate::model::MemoryItem;
use crate::order::{lemma_ranked, lemma_ranked_contains, rank, ranked, views, Ranked};
use crate::text::{copy_texts, texts};

verus! {

/// The version of the index layout that this library writes and accepts.
pub const INDEX_VERSION: u32 = 1;

/// What the index keeps of one record.
#[derive(Debug, Clone)]
pub struct IndexItem {
    pub id: String,
    /// Where the record's line begins in the log.
    pub offset: u64,
    /// The length of the line in bytes, its line ending included.
    pub length: u32,
    pub recorded_at_ts: i64,
    pub occurred_at_ts: Option<i64>,
    pub importance: Option<u8>,
    pub keywords: Vec<String>,
}

/// What the index keeps of one record, as texts.
pub struct IndexItemView {
    pub id: Seq<char>,
    pub offset: u64,
    pub length: u32,
    pub recorded_at_ts: i64,
    pub occurred_at_ts: Option<i64>,
    pub importance: Option<u8>,
    pub keywords: Seq<Seq<char>>,
}

impl IndexItemView {
    /// The time by which the record is filtered and ordered: when it
    /// occurred, if that is known, else when it was recorded.
    pub open spec fn time_key(self) -> i64 {
        match self.occurred_at_ts {
            Some(t) => t,
            None => self.recorded_at_ts,
        }
    }
}

impl View for IndexItem {
    type V = IndexItemView;

    open spec fn view(&self) -> IndexItemView {
        IndexItemView {
            id: self.id@,
            offset: self.offset,
            length: self.length,
            recorded_at_ts: self.recorded_at_ts,
            occurred_at_ts: self.occurred_at_ts,
            importance: self.importance,
            keywords: texts(self.keywords@),
        }
    }
}

impl IndexItem {
    /// The time by which the record is filtered and ordered.
    pub fn time_key_ts(&self) -> (r: i64)
        ensures
            r == self@.time_key(),
    {
        match self.occurred_at_ts {
            Some(t) => t,
            None => self.recorded_at_ts,
        }
    }
}

/// The records that carry one keyword, by their positions in the index.
#[derive(Debug, Clone)]
pub struct Posting {
    pub keyword: String,
    pub items: Vec<u32>,
}

/// The records that carry one keyword, as texts.
pub struct PostingView {
    pub keyword: Seq<char>,
    pub items: Seq<u32>,
}

impl View for Posting {
    type V = PostingView;

    open spec fn view(&self) -> PostingView {
        PostingView { keyword: self.keyword@, items: self.items@ }
    }
}

/// The index of one namespace.
#[derive(Debug, Clone)]
pub struct IndexData {
    pub version: u32,
    pub namespace: String,
    pub memories_file: String,
    /// The length of the part of the log that the index accounts for.
    pub indexed_up_to_offset: u64,
    pub items: Vec<IndexItem>,
    /// For each keyword in use, the records that carry it. The order of the
    /// keywords has no meaning.
    pub keyword_postings: Vec<Posting>,
    /// The positions of all records, ascending by time key unless
    /// `time_sorted_dirty` is set.
    pub time_sorted: Vec<u32>,
    pub time_sorted_dirty: bool,
}

/// The index of one namespace, as a mathematical value.
pub struct IndexDataView {
    pub version: u32,
    pub namespace: Seq<char>,
    pub memories_file: Seq<char>,
    pub indexed_up_to_offset: u64,
    pub items: Seq<IndexItemView>,
    pub postings: Seq<PostingView>,
    pub time_sorted: Seq<u32>,
    pub time_sorted_dirty: bool,
}

/// The views of a sequence of index items.
pub open spec fn item_views(items: Seq<IndexItem>) -> Seq<IndexItemView> {
    Seq::new(items.len(), |i: int| items[i]@)
}

/// The views of a sequence of postings.
pub open spec fn posting_views(postings: Seq<Posting>) -> Seq<PostingView> {
    Seq::new(postings.len(), |i: int| postings[i]@)
}

impl View for IndexData {
    type V = IndexDataView;

    open spec fn view(&self) -> IndexDataView {
        IndexDataView {
            version: self.version,
            namespace: self.namespace@,
            memories_file: self.memories_file@,
            indexed_up_to_offset: self.indexed_up_to_offset,
            items: item_views(self.items@),
            postings: posting_views(self.keyword_postings@),
            time_sorted: self.time_sorted@,
            time_sorted_dirty: self.time_sorted_dirty,
        }
    }
}

/// The position of the posting of `keyword` at or after `from`, or the
/// number of postings where the keyword has none.
pub open spec fn posting_at(postings: Seq<PostingView>, keyword: Seq<char>, from: int) -> int
    decreases postings.len() - from,
{
    if from < 0 || from >= postings.len() {
        postings.len() as int
    } else if postings[from].keyword == keyword {
        from
    } else {
        posting_at(postings, keyword, from + 1)
    }
}

/// The records that carry `keyword`: none where the keyword is not in use.
pub open spec fn records_with(postings: Seq<PostingView>, keyword: Seq<char>) -> Seq<u32> {
    let at = posting_at(postings, keyword, 0);
    if 0 <= at < postings.len() {
        postings[at].items
    } else {
        Seq::empty()
    }
}

/// The postings once the record at position `idx` is entered under
/// `keyword`: behind the other records of the keyword, or as the first
/// record of a keyword that was not in use.
pub open spec fn posted_one(postings: Seq<PostingView>, keyword: Seq<char>, idx: u32) -> Seq<
    PostingView,
> {
    let at = posting_at(postings, keyword, 0);
    if 0 <= at < postings.len() {
        postings.update(at, PostingView { keyword, items: postings[at].items.push(idx) })
    } else {
        postings.push(PostingView { keyword, items: seq![idx] })
    }
}

/// The postings once the record at position `idx` is entered under each of
/// `keywords`.
pub open spec fn posted(postings: Seq<PostingView>, keywords: Seq<Seq<char>>, idx: u32) -> Seq<
    PostingView,
>
    decreases keywords.len(),
{
    if keywords.len() == 0 {
        postings
    } else {
        posted_one(posted(postings, keywords.drop_last(), idx), keywords.last(), idx)
    }
}

/// The time key of the record at position `idx`; 0 where there is no such
/// record.
pub open spec fn key_of(items: Seq<IndexItemView>, idx: u32) -> i64 {
    if idx < items.len() {
        items[idx as int].time_key()
    } else {
        0
    }
}

/// Whether the positions in `order` ascend by time key.
pub open spec fn ascending(items: Seq<IndexItemView>, order: Seq<u32>) -> bool {
    forall|i: int, j: int|
        #![trigger order[i], order[j]]
        0 <= i < j < order.len() ==> key_of(items, order[i]) <= key_of(items, order[j])
}

/// Whether `order` holds each position below `n` exactly once.
pub open spec fn is_permutation(order: Seq<u32>, n: nat) -> bool {
    &&& order.len() == n
    &&& forall|i: int| 0 <= i < order.len() ==> (#[trigger] order[i]) < n
    &&& forall|i: int, j: int|
        #![trigger order[i], order[j]]
        0 <= i < j < order.len() ==> order[i] != order[j]
}

/// Whether the positions in `list` are below `n` and strictly ascending.
pub open spec fn rising(list: Seq<u32>, n: nat) -> bool {
    &&& forall|i: int| 0 <= i < list.len() ==> (#[trigger] list[i]) < n
    &&& forall|i: int, j: int|
        #![trigger list[i], list[j]]
        0 <= i < j < list.len() ==> list[i] < list[j]
}

/// Whether the postings are sound for an index of `n` records: every
/// keyword has one posting, and each posting names at least one record, each
/// record once, in the order in which the records were entered.
pub open spec fn postings_sound(postings: Seq<PostingView>, n: nat) -> bool {
    &&& forall|i: int, j: int|
        #![trigger postings[i], postings[j]]
        0 <= i < j < postings.len() ==> postings[i].keyword != postings[j].keyword
    &&& forall|i: int|
        0 <= i < postings.len() ==> (#[trigger] postings[i]).items.len() > 0 && rising(
            postings[i].items,
            n,
        )
}

/// Whether the postings file each record under its keywords and under no
/// other: a record is named by the posting of a keyword exactly when the
/// keyword is one of its own.
pub open spec fn filed_by_keywords(items: Seq<IndexItemView>, postings: Seq<PostingView>) -> bool {
    forall|keyword: Seq<char>, idx: u32| #[trigger]
        records_with(postings, keyword).contains(idx) <==> idx < items.len()
            && items[idx as int].keywords.contains(keyword)
}

impl IndexDataView {
    /// The index of a namespace of which nothing is recorded yet.
    pub open spec fn empty(namespace: Seq<char>) -> IndexDataView {
        IndexDataView {
            version: INDEX_VERSION,
            namespace,
            memories_file: "memories.jsonl"@,
            indexed_up_to_offset: 0,
            items: Seq::empty(),
            postings: Seq::empty(),
            time_sorted: Seq::empty(),
            time_sorted_dirty: false,
        }
    }

    /// Whether the index is consistent in itself: its positions fit in 32
    /// bits, its postings are sound and file each record under its own
    /// keywords, its time order names every record once, and the time order
    /// ascends unless it is marked dirty.
    pub open spec fn wf(self) -> bool {
        &&& self.items.len() <= u32::MAX
        &&& postings_sound(self.postings, self.items.len())
        &&& filed_by_keywords(self.items, self.postings)
        &&& is_permutation(self.time_sorted, self.items.len())
        &&& !self.time_sorted_dirty ==> ascending(self.items, self.time_sorted)
    }

    /// The index once `entry` is entered as its next record.
    pub open spec fn with_item(self, entry: IndexItemView) -> IndexDataView {
        let idx = self.items.len() as u32;
        IndexDataView {
            items: self.items.push(entry),
            postings: posted(self.postings, entry.keywords, idx),
            time_sorted: self.time_sorted.push(idx),
            time_sorted_dirty: true,
            ..self
        }
    }

    /// The index with its time order settled: the positions in ascending
    /// order of time key, positions that tie keeping their order.
    pub open spec fn settled(self) -> IndexDataView {
        if self.time_sorted_dirty {
            IndexDataView {
                time_sorted: by_time(self.items, self.time_sorted),
                time_sorted_dirty: false,
                ..self
            }
        } else {
            self
        }
    }
}

/// A position together with its time key.
pub struct TimeRank {
    pub key: i64,
    pub idx: u32,
}

impl View for TimeRank {
    type V = TimeRank;

    open spec fn view(&self) -> TimeRank {
        *self
    }
}

impl Ranked for TimeRank {
    open spec fn may_precede(a: TimeRank, b: TimeRank) -> bool {
        a.key <= b.key
    }

    fn precedes(&self, other: &Self) -> (r: bool) {
        self.key <= other.key
    }

    proof fn lemma_total(a: TimeRank, b: TimeRank) {
    }

    proof fn lemma_transitive(a: TimeRank, b: TimeRank, c: TimeRank) {
    }
}

/// The positions of `order`, each with its time key.
pub open spec fn keyed(items: Seq<IndexItemView>, order: Seq<u32>) -> Seq<TimeRank> {
    Seq::new(order.len(), |i: int| TimeRank { key: key_of(items, order[i]), idx: order[i] })
}

/// The positions of `order` in ascending order of time key, positions that
/// tie keeping the order they have in `order`.
pub open spec fn by_time(items: Seq<IndexItemView>, order: Seq<u32>) -> Seq<u32> {
    let r = ranked::<TimeRank>(keyed(items, order));
    Seq::new(r.len(), |i: int| r[i].idx)
}

/// Ordering by time keeps the positions and makes them ascend.
pub proof fn lemma_by_time(items: Seq<IndexItemView>, order: Seq<u32>)
    ensures
        ascending(items, by_time(items, order)),
        by_time(items, order).len() == order.len(),
        forall|x: u32| by_time(items, order).contains(x) <==> order.contains(x),
        is_permutation(order, items.len()) ==> is_permutation(by_time(items, order), items.len()),
{
    let k = keyed(items, order);
    let r = ranked::<TimeRank>(k);
    let out = by_time(items, order);
    lemma_ranked::<TimeRank>(k);
    assert forall|i: int| 0 <= i < r.len() implies k.contains(#[trigger] r[i]) && r[i].key
        == key_of(items, r[i].idx) by {
        lemma_ranked_contains::<TimeRank>(k, r[i]);
        assert(r.contains(r[i]));
        let j = choose|j: int| 0 <= j < k.len() && k[j] == r[i];
        assert(k[j].key == key_of(items, order[j]));
    }
    assert forall|i: int, j: int| #![trigger out[i], out[j]] 0 <= i < j < out.len() implies key_of(
        items,
        out[i],
    ) <= key_of(items, out[j]) by {
        assert(TimeRank::may_precede(r[i], r[j]));
    }
    assert forall|x: u32| out.contains(x) <==> order.contains(x) by {
        if out.contains(x) {
            let i = choose|i: int| 0 <= i < out.len() && out[i] == x;
            assert(k.contains(r[i]));
            let j = choose|j: int| 0 <= j < k.len() && k[j] == r[i];
            assert(order[j] == x);
        }
        if order.contains(x) {
            let j = choose|j: int| 0 <= j < order.len() && order[j] == x;
            assert(k[j] == TimeRank { key: key_of(items, x), idx: x });
            assert(k.contains(k[j]));
            lemma_ranked_contains::<TimeRank>(k, k[j]);
            let i = choose|i: int| 0 <= i < r.len() && r[i] == k[j];
            assert(out[i] == x);
        }
    }
    if is_permutation(order, items.len()) {
        assert forall|i: int| 0 <= i < out.len() implies (#[trigger] out[i]) < items.len() by {
            assert(out.contains(out[i]));
            assert(order.contains(out[i]));
        }
        assert(k.no_duplicates()) by {
            assert forall|i: int, j: int| 0 <= i < k.len() && 0 <= j < k.len() && i != j implies k[i]
                != k[j] by {
                if i < j {
                    assert(order[i] != order[j]);
                } else {
                    assert(order[j] != order[i]);
                }
            }
        }
        k.lemma_multiset_has_no_duplicates();
        r.lemma_multiset_has_no_duplicates_conv();
        assert forall|i: int, j: int| #![trigger out[i], out[j]] 0 <= i < j < out.len() implies out[i]
            != out[j] by {
            assert(r[i] != r[j]);
        }
    }
}

impl IndexData {
    /// The index of a namespace of which nothing is recorded yet.
    pub fn new(namespace: &str) -> (r: IndexData)
        ensures
            r@ == IndexDataView::empty(namespace@),
            r@.wf(),
    {
        let r = IndexData {
            version: INDEX_VERSION,
            namespace: String::from_str(namespace),
            memories_file: String::from_str("memories.jsonl"),
            indexed_up_to_offset: 0,
            items: Vec::new(),
            keyword_postings: Vec::new(),
            time_sorted: Vec::new(),
            time_sorted_dirty: false,
        };
        assert(r@.items == Seq::<IndexItemView>::empty());
        assert(r@.postings == Seq::<PostingView>::empty());
        r
    }

    /// The position of the posting of `keyword`, if the keyword is in use.
    pub fn find_posting(&self, keyword: &String) -> (r: Option<usize>)
        ensures
            r is Some <==> 0 <= posting_at(self@.postings, keyword@, 0) < self@.postings.len(),
            r matches Some(at) ==> at == posting_at(self@.postings, keyword@, 0),
    {
        let mut i: usize = 0;
        while i < self.keyword_postings.len()
            invariant
                i <= self.keyword_postings.len(),
                posting_at(self@.postings, keyword@, 0) == posting_at(
                    self@.postings,
                    keyword@,
                    i as int,
                ),
            decreases self.keyword_postings.len() - i,
        {
            assert(self@.postings[i as int] == self.keyword_postings@[i as int]@);
            if self.keyword_postings[i].keyword == *keyword {
                return Some(i);
            }
            i += 1;
        }
        None
    }

    /// Enters the record at position `idx` under `keyword`.
    fn post(&mut self, keyword: String, idx: u32)
        ensures
            final(self)@ == (IndexDataView {
                postings: posted_one(old(self)@.postings, keyword@, idx),
                ..old(self)@
            }),
    {
        let ghost before = self@.postings;
        match self.find_posting(&keyword) {
            Some(at) => {
                let ghost stored = self.keyword_postings@;
                self.keyword_postings[at].items.push(idx);
                proof {
                    lemma_posting_at(before, keyword@, 0);
                    let after = posted_one(before, keyword@, idx);
                    assert(self@.postings.len() == after.len());
                    assert forall|i: int| 0 <= i < after.len() implies self@.postings[i]
                        == after[i] by {
                        assert(before[i] == stored[i]@);
                    }
                    assert(self@.postings =~= after);
                }
            },
            None => {
                let mut items: Vec<u32> = Vec::new();
                items.push(idx);
                assert(items@ == seq![idx]);
                self.keyword_postings.push(Posting { keyword, items });
                assert(self@.postings =~= posted_one(before, keyword@, idx));
            },
        }
        assert(self@.items == old(self)@.items);
    }

    /// Enters a record as the next one of the index: it is filed under each
    /// of its keywords and added to the time order, which is marked dirty.
    pub fn add_memory_item(
        &mut self,
        item: &MemoryItem,
        offset: u64,
        length: u32,
        recorded_at_ts: i64,
        occurred_at_ts: Option<i64>,
        keywords: Vec<String>,
    )
        requires
            old(self)@.items.len() < u32::MAX,
        ensures
            final(self)@ == old(self)@.with_item(
                IndexItemView {
                    id: item@.id,
                    offset,
                    length,
                    recorded_at_ts,
                    occurred_at_ts,
                    importance: item@.importance,
                    keywords: texts(keywords@),
                },
            ),
            old(self)@.wf() && distinct(texts(keywords@)) ==> final(self)@.wf(),
    {
        let idx = self.items.len() as u32;
        let ghost entry = IndexItemView {
            id: item@.id,
            offset,
            length,
            recorded_at_ts,
            occurred_at_ts,
            importance: item@.importance,
            keywords: texts(keywords@),
        };
        let ghost before = self@;
        self.items.push(
            IndexItem {
                id: item.id.clone(),
                offset,
                length,
                recorded_at_ts,
                occurred_at_ts,
                importance: item.importance,
                keywords: copy_texts(&keywords),
            },
        );
        assert(self@.items == before.items.push(entry));
        let mut i: usize = 0;
        assert(texts(keywords@).take(0) == Seq::<Seq<char>>::empty());
        while i < keywords.len()
            invariant
                i <= keywords.len(),
                self@ == (IndexDataView {
                    items: before.items.push(entry),
                    postings: posted(before.postings, texts(keywords@).take(i as int), idx),
                    ..before
                }),
            decreases keywords.len() - i,
        {
            proof {
                assert(texts(keywords@).take(i + 1).drop_last() == texts(keywords@).take(i as int));
                assert(texts(keywords@).take(i + 1).last() == keywords@[i as int]@);
            }
            self.post(keywords[i].clone(), idx);
            i += 1;
        }
        assert(texts(keywords@).take(keywords.len() as int) == texts(keywords@));
        self.time_sorted.push(idx);
        self.time_sorted_dirty = true;
        proof {
            if before.wf() && distinct(texts(keywords@)) {
                lemma_with_item_wf(before, entry);
            }
        }
    }

    /// Settles the time order if it is dirty: the positions are put in
    /// ascending order of time key, positions that tie keeping their order.
    /// A position that names no record counts as time 0.
    pub fn ensure_time_sorted(&mut self)
        ensures
            final(self)@ == old(self)@.settled(),
            !final(self)@.time_sorted_dirty,
            old(self)@.wf() ==> final(self)@.wf(),
    {
        if !self.time_sorted_dirty {
            return ;
        }
        let ghost before = self@;
        let mut pairs: Vec<TimeRank> = Vec::new();
        let mut i: usize = 0;
        while i < self.time_sorted.len()
            invariant
                i <= self.time_sorted.len(),
                self@ == before,
                pairs@ == keyed(before.items, before.time_sorted).take(i as int),
            decreases self.time_sorted.len() - i,
        {
            let idx = self.time_sorted[i];
            let key = if (idx as usize) < self.items.len() {
                assert(before.items[idx as int] == self.items@[idx as int]@);
                self.items[idx as usize].time_key_ts()
            } else {
                0
            };
            pairs.push(TimeRank { key, idx });
            assert(pairs@ == keyed(before.items, before.time_sorted).take(i + 1));
            i += 1;
        }
        assert(keyed(before.items, before.time_sorted).take(self.time_sorted.len() as int)
            == keyed(before.items, before.time_sorted));
        assert(views(pairs@) == pairs@);
        let sorted = rank(pairs);
        let mut order: Vec<u32> = Vec::new();
        let mut j: usize = 0;
        while j < sorted.len()
            invariant
                j <= sorted.len(),
                order@ == by_time(before.items, before.time_sorted).take(j as int),
                views(sorted@) == ranked::<TimeRank>(keyed(before.items, before.time_sorted)),
            decreases sorted.len() - j,
        {
            assert(views(sorted@)[j as int] == sorted@[j as int]);
            order.push(sorted[j].idx);
            assert(order@ == by_time(before.items, before.time_sorted).take(j + 1));
            j += 1;
        }
        assert(by_time(before.items, before.time_sorted).take(sorted.len() as int) == by_time(
            before.items,
            before.time_sorted,
        ));
        self.time_sorted = order;
        self.time_sorted_dirty = false;
        proof {
            lemma_by_time(before.items, before.time_sorted);
            if before.wf() {
                lemma_settled_wf(before);
            }
        }
    }
}

/// Settling the time order keeps a consistent index consistent.
pub proof fn lemma_settled_wf(index: IndexDataView)
    requires
        index.wf(),
    ensures
        index.settled().wf(),
        ascending(index.items, index.settled().time_sorted),
{
    lemma_by_time(index.items, index.time_sorted);
}

/// Entering a record under one more keyword keeps the postings sound, as
/// long as the record is not yet filed under that keyword.
pub proof fn lemma_posted_one_sound(
    postings: Seq<PostingView>,
    keyword: Seq<char>,
    idx: u32,
    n: nat,
)
    requires
        postings_sound(postings, n),
        idx < n,
        forall|k: int|
            0 <= k < records_with(postings, keyword).len() ==> (#[trigger] records_with(
                postings,
                keyword,
            )[k]) < idx,
    ensures
        postings_sound(posted_one(postings, keyword, idx), n),
        forall|other: Seq<char>|
            other != keyword ==> #[trigger] records_with(posted_one(postings, keyword, idx), other)
                == records_with(postings, other),
        records_with(posted_one(postings, keyword, idx), keyword) == records_with(
            postings,
            keyword,
        ).push(idx),
{
    let after = posted_one(postings, keyword, idx);
    let at = posting_at(postings, keyword, 0);
    lemma_posting_at(postings, keyword, 0);
    if 0 <= at < postings.len() {
        assert(after[at].items == postings[at].items.push(idx));
        assert forall|i: int| 0 <= i < after.len() implies (#[trigger] after[i]).items.len() > 0
            && rising(after[i].items, n) by {
            if i != at {
                assert(after[i] == postings[i]);
            } else {
                let list = postings[at].items;
                assert(rising(list, n));
                assert forall|a: int, b: int|
                    #![trigger after[at].items[a], after[at].items[b]]
                    0 <= a < b < after[at].items.len() implies after[at].items[a]
                    < after[at].items[b] by {
                    if b < list.len() {
                        assert(list[a] < list[b]);
                    } else {
                        assert(records_with(postings, keyword)[a] < idx);
                    }
                }
            }
        }
        assert forall|i: int, j: int|
            #![trigger after[i], after[j]]
            0 <= i < j < after.len() implies after[i].keyword != after[j].keyword by {
            assert(after[i].keyword == postings[i].keyword);
            assert(after[j].keyword == postings[j].keyword);
        }
    } else {
        assert(seq![idx][0] == idx);
        assert forall|i: int| 0 <= i < after.len() implies (#[trigger] after[i]).items.len() > 0
            && rising(after[i].items, n) by {
            if i < postings.len() {
                assert(after[i] == postings[i]);
            }
        }
        assert forall|i: int, j: int|
            #![trigger after[i], after[j]]
            0 <= i < j < after.len() implies after[i].keyword != after[j].keyword by {
            assert(after[i] == postings[i]);
            if j < postings.len() {
                assert(after[j] == postings[j]);
            }
        }
    }
    lemma_posting_at(after, keyword, 0);
    assert(records_with(after, keyword) == records_with(postings, keyword).push(idx)) by {
        if 0 <= at < postings.len() {
            lemma_posting_at_unique(after, keyword, at);
        } else {
            lemma_posting_at_unique(after, keyword, postings.len() as int);
            assert(Seq::<u32>::empty().push(idx) == seq![idx]);
        }
    }
    assert forall|other: Seq<char>| other != keyword implies #[trigger] records_with(after, other)
        == records_with(postings, other) by {
        lemma_posting_at(postings, other, 0);
        lemma_posting_at(after, other, 0);
        let p = posting_at(postings, other, 0);
        if 0 <= p < postings.len() {
            assert(after[p].keyword == other);
            assert(after[p].items == postings[p].items);
            lemma_posting_at_unique(after, other, p);
        } else {
            let q = posting_at(after, other, 0);
            if 0 <= q < after.len() {
                if q < postings.len() {
                    assert(postings[q].keyword == other);
                }
            }
        }
    }
}

/// What `posting_at` finds: the first posting of the keyword.
pub proof fn lemma_posting_at(postings: Seq<PostingView>, keyword: Seq<char>, from: int)
    requires
        0 <= from,
    ensures
        from <= posting_at(postings, keyword, from) || posting_at(postings, keyword, from)
            == postings.len(),
        posting_at(postings, keyword, from) <= postings.len(),
        posting_at(postings, keyword, from) < postings.len() ==> postings[posting_at(
            postings,
            keyword,
            from,
        )].keyword == keyword,
        forall|k: int|
            from <= k < posting_at(postings, keyword, from) && k < postings.len() ==> (
            #[trigger] postings[k]).keyword != keyword,
    decreases postings.len() - from,
{
    if from < postings.len() && postings[from].keyword != keyword {
        lemma_posting_at(postings, keyword, from + 1);
    }
}

/// Where keywords have one posting each, the posting of a keyword is found
/// wherever it stands.
pub proof fn lemma_posting_at_unique(postings: Seq<PostingView>, keyword: Seq<char>, at: int)
    requires
        0 <= at < postings.len(),
        postings[at].keyword == keyword,
        forall|i: int, j: int|
            #![trigger postings[i], postings[j]]
            0 <= i < j < postings.len() ==> postings[i].keyword != postings[j].keyword,
    ensures
        posting_at(postings, keyword, 0) == at,
{
    lemma_posting_at(postings, keyword, 0);
    let p = posting_at(postings, keyword, 0);
    if p < at {
        assert(postings[p].keyword != postings[at].keyword);
    }
}

/// Entering a record under keywords that differ from each other keeps the
/// postings sound.
pub proof fn lemma_posted_sound(
    postings: Seq<PostingView>,
    keywords: Seq<Seq<char>>,
    idx: u32,
    n: nat,
)
    requires
        postings_sound(postings, idx as nat),
        distinct(keywords),
        idx < n,
    ensures
        postings_sound(posted(postings, keywords, idx), n),
        forall|other: Seq<char>|
            !keywords.contains(other) ==> #[trigger] records_with(
                posted(postings, keywords, idx),
                other,
            ) == records_with(postings, other),
        forall|k: int|
            0 <= k < keywords.len() ==> #[trigger] records_with(
                posted(postings, keywords, idx),
                keywords[k],
            ) == records_with(postings, keywords[k]).push(idx),
    decreases keywords.len(),
{
    if keywords.len() == 0 {
        assert forall|i: int| 0 <= i < postings.len() implies rising(
            (#[trigger] postings[i]).items,
            n,
        ) by {
            assert(rising(postings[i].items, idx as nat));
        }
    } else {
        let rest = keywords.drop_last();
        let last = keywords.last();
        let mid = posted(postings, rest, idx);
        assert(distinct(rest)) by {
            assert forall|i: int, j: int| 0 <= i < j < rest.len() implies rest[i] != rest[j] by {
                assert(rest[i] == keywords[i] && rest[j] == keywords[j]);
            }
        }
        lemma_posted_sound(postings, rest, idx, n);
        assert(!rest.contains(last)) by {
            if rest.contains(last) {
                let i = choose|i: int| 0 <= i < rest.len() && rest[i] == last;
                assert(keywords[i] != keywords[keywords.len() - 1]);
            }
        }
        assert(records_with(mid, last) == records_with(postings, last));
        assert forall|k: int| 0 <= k < records_with(mid, last).len() implies (
        #[trigger] records_with(mid, last)[k]) < idx by {
            lemma_posting_at(postings, last, 0);
            let p = posting_at(postings, last, 0);
            if 0 <= p < postings.len() {
                assert(rising(postings[p].items, idx as nat));
            }
        }
        lemma_posted_one_sound(mid, last, idx, n);
        let after = posted(postings, keywords, idx);
        assert forall|other: Seq<char>| !keywords.contains(other) implies #[trigger] records_with(
            after,
            other,
        ) == records_with(postings, other) by {
            assert(other != last) by {
                if other == last {
                    assert(keywords[keywords.len() - 1] == other);
                }
            }
            assert(!rest.contains(other)) by {
                if rest.contains(other) {
                    let i = choose|i: int| 0 <= i < rest.len() && rest[i] == other;
                    assert(keywords[i] == other);
                }
            }
            assert(records_with(mid, other) == records_with(postings, other));
        }
        assert forall|k: int| 0 <= k < keywords.len() implies #[trigger] records_with(
            after,
            keywords[k],
        ) == records_with(postings, keywords[k]).push(idx) by {
            if k < rest.len() {
                assert(rest[k] == keywords[k]);
                assert(keywords[k] != keywords[keywords.len() - 1]);
                assert(records_with(mid, rest[k]) == records_with(postings, rest[k]).push(idx));
            }
        }
    }
}

/// The records that a keyword names in sound postings are positions below
/// `n`.
pub proof fn lemma_records_rising(postings: Seq<PostingView>, keyword: Seq<char>, n: nat)
    requires
        postings_sound(postings, n),
    ensures
        rising(records_with(postings, keyword), n),
{
    lemma_posting_at(postings, keyword, 0);
    let at = posting_at(postings, keyword, 0);
    if 0 <= at < postings.len() {
        assert(rising(postings[at].items, n));
    }
}

/// Entering a record whose keywords differ from each other keeps a
/// consistent index consistent.
pub proof fn lemma_with_item_wf(index: IndexDataView, entry: IndexItemView)
    requires
        index.wf(),
        index.items.len() < u32::MAX,
        distinct(entry.keywords),
    ensures
        index.with_item(entry).wf(),
{
    let n = index.items.len();
    let idx = n as u32;
    let after = index.with_item(entry);
    lemma_posted_sound(index.postings, entry.keywords, idx, n + 1);
    assert forall|keyword: Seq<char>, at: u32| #[trigger]
        records_with(after.postings, keyword).contains(at) <==> at < after.items.len()
            && after.items[at as int].keywords.contains(keyword) by {
        let before = records_with(index.postings, keyword);
        let now = records_with(after.postings, keyword);
        lemma_records_rising(index.postings, keyword, n);
        if entry.keywords.contains(keyword) {
            let k = choose|k: int| 0 <= k < entry.keywords.len() && entry.keywords[k] == keyword;
            assert(now == before.push(idx));
            assert(now[before.len() as int] == idx);
            if now.contains(at) && at != idx {
                let j = choose|j: int| 0 <= j < now.len() && now[j] == at;
                assert(before[j] == at);
            }
            if before.contains(at) {
                let j = choose|j: int| 0 <= j < before.len() && before[j] == at;
                assert(now[j] == at);
            }
        } else {
            assert(now == before);
        }
        if before.contains(at) {
            let j = choose|j: int| 0 <= j < before.len() && before[j] == at;
            assert(before[j] < n);
        }
        if at < n {
            assert(after.items[at as int] == index.items[at as int]);
        }
    }
    assert forall|i: int, j: int|
        #![trigger after.time_sorted[i], after.time_sorted[j]]
        0 <= i < j < after.time_sorted.len() implies after.time_sorted[i]
        != after.time_sorted[j] by {
        if j < n {
            assert(index.time_sorted[i] != index.time_sorted[j]);
        } else {
            assert(index.time_sorted[i] < n);
        }
    }
    assert forall|i: int| 0 <= i < after.time_sorted.len() implies (
    #[trigger] after.time_sorted[i]) < n + 1 by {
        if i < n {
            assert(index.time_sorted[i] < n);
        }
    }
}

impl IndexDataView {
    /// Whether every record lies within the part of the log that the index
    /// accounts for.
    pub open spec fn covers_items(self) -> bool {
        forall|i: int|
            0 <= i < self.items.len() ==> (#[trigger] self.items[i]).offset + self.items[i].length
                <= self.indexed_up_to_offset
    }

    /// Whether the index is consistent in itself and with the extent of the
    /// log that it accounts for.
    pub open spec fn consistent(self) -> bool {
        self.wf() && self.covers_items()
    }
}

/// Whether each member of `list` is below `n` and below its successor.
pub open spec fn steps_up(list: Seq<u32>, n: nat) -> bool {
    forall|i: int|
        0 <= i < list.len() ==> (#[trigger] list[i]) < n && (i + 1 < list.len() ==> list[i] < list[i
            + 1])
}

/// A list that steps up from member to member is rising.
pub proof fn lemma_steps_up_rising(list: Seq<u32>, n: nat)
    ensures
        steps_up(list, n) <==> rising(list, n),
{
    if steps_up(list, n) {
        assert forall|i: int, j: int|
            #![trigger list[i], list[j]]
            0 <= i < j < list.len() implies list[i] < list[j] by {
            lemma_steps_reach(list, n, i, j);
        }
    }
    if rising(list, n) {
        assert forall|i: int| 0 <= i < list.len() implies (#[trigger] list[i]) < n && (i + 1
            < list.len() ==> list[i] < list[i + 1]) by {
            if i + 1 < list.len() {
                assert(list[i] < list[i + 1]);
            }
        }
    }
}

/// In a list that steps up, an earlier member is below every later one.
pub proof fn lemma_steps_reach(list: Seq<u32>, n: nat, i: int, j: int)
    requires
        steps_up(list, n),
        0 <= i < j < list.len(),
    ensures
        list[i] < list[j],
    decreases j - i,
{
    assert(list[j - 1] < n);
    if i < j - 1 {
        lemma_steps_reach(list, n, i, j - 1);
    }
}

/// Whether the time keys of neighbours in `order` do not descend.
pub open spec fn steps_in_time(items: Seq<IndexItemView>, order: Seq<u32>) -> bool {
    forall|i: int|
        0 <= i && i + 1 < order.len() ==> key_of(items, #[trigger] order[i]) <= key_of(
            items,
            order[i + 1],
        )
}

/// In an order whose neighbours do not descend, no later member is earlier
/// in time.
pub proof fn lemma_time_steps_reach(items: Seq<IndexItemView>, order: Seq<u32>, i: int, j: int)
    requires
        steps_in_time(items, order),
        0 <= i < j < order.len(),
    ensures
        key_of(items, order[i]) <= key_of(items, order[j]),
    decreases j - i,
{
    assert(key_of(items, order[j - 1]) <= key_of(items, order[j]));
    if i < j - 1 {
        lemma_time_steps_reach(items, order, i, j - 1);
    }
}

/// Whether a rising list of positions names `idx`.
fn names(list: &Vec<u32>, idx: u32, Ghost(n): Ghost<nat>) -> (r: bool)
    requires
        rising(list@, n),
    ensures
        r == list@.contains(idx),
{
    let mut lo: usize = 0;
    let mut hi: usize = list.len();
    while lo < hi
        invariant
            lo <= hi <= list.len(),
            rising(list@, n),
            forall|a: int| 0 <= a < lo ==> (#[trigger] list@[a]) < idx,
            forall|a: int| hi <= a < list@.len() ==> (#[trigger] list@[a]) > idx,
        decreases hi - lo,
    {
        let mid = lo + (hi - lo) / 2;
        let at = list[mid];
        if at == idx {
            return true;
        }
        if at < idx {
            assert forall|a: int| 0 <= a < mid + 1 implies (#[trigger] list@[a]) < idx by {
                if a < mid {
                    assert(list@[a] < list@[mid as int]);
                }
            }
            lo = mid + 1;
        } else {
            assert forall|a: int| mid <= a < list@.len() implies (#[trigger] list@[a]) > idx by {
                if a > mid {
                    assert(list@[mid as int] < list@[a]);
                }
            }
            hi = mid;
        }
    }
    false
}

impl Posting {
    /// Whether the posting names at least one record, and its records are
    /// positions below `n` in strictly ascending order.
    fn is_sound(&self, n: usize) -> (r: bool)
        ensures
            r == (self@.items.len() > 0 && rising(self@.items, n as nat)),
    {
        proof {
            lemma_steps_up_rising(self@.items, n as nat);
        }
        if self.items.len() == 0 {
            return false;
        }
        let mut i: usize = 0;
        while i < self.items.len()
            invariant
                i <= self.items.len(),
                forall|k: int|
                    0 <= k < i ==> (#[trigger] self.items@[k]) < n && (k + 1 < self.items@.len()
                        ==> self.items@[k] < self.items@[k + 1]),
            decreases self.items.len() - i,
        {
            if self.items[i] as usize >= n {
                return false;
            }
            if i + 1 < self.items.len() && self.items[i] >= self.items[i + 1] {
                return false;
            }
            i += 1;
        }
        true
    }
}

impl IndexData {
    /// The time key of the record at position `idx`; 0 where there is no
    /// such record.
    pub fn time_key_at(&self, idx: u32) -> (r: i64)
        ensures
            r == key_of(self@.items, idx),
    {
        if (idx as usize) < self.items.len() {
            assert(self@.items[idx as int] == self.items@[idx as int]@);
            self.items[idx as usize].time_key_ts()
        } else {
            0
        }
    }

    /// Whether every keyword has one posting and each posting is sound.
    fn postings_are_sound(&self) -> (r: bool)
        ensures
            r == postings_sound(self@.postings, self@.items.len()),
    {
        let n = self.items.len();
        let mut i: usize = 0;
        while i < self.keyword_postings.len()
            invariant
                i <= self.keyword_postings.len(),
                n == self@.items.len(),
                forall|a: int, b: int|
                    #![trigger self@.postings[a], self@.postings[b]]
                    0 <= a < b < i ==> self@.postings[a].keyword != self@.postings[b].keyword,
                forall|k: int|
                    0 <= k < i ==> (#[trigger] self@.postings[k]).items.len() > 0 && rising(
                        self@.postings[k].items,
                        n as nat,
                    ),
            decreases self.keyword_postings.len() - i,
        {
            assert(self@.postings[i as int] == self.keyword_postings@[i as int]@);
            if !self.keyword_postings[i].is_sound(n) {
                return false;
            }
            let mut j: usize = 0;
            while j < i
                invariant
                    j <= i < self.keyword_postings.len(),
                    forall|a: int|
                        0 <= a < j ==> (#[trigger] self@.postings[a]).keyword
                            != self@.postings[i as int].keyword,
                decreases i - j,
            {
                assert(self@.postings[j as int] == self.keyword_postings@[j as int]@);
                assert(self@.postings[i as int] == self.keyword_postings@[i as int]@);
                if self.keyword_postings[j].keyword == self.keyword_postings[i].keyword {
                    return false;
                }
                j += 1;
            }
            i += 1;
        }
        true
    }

    /// Whether the time order names each record exactly once.
    fn time_order_is_permutation(&self) -> (r: bool)
        ensures
            r == is_permutation(self@.time_sorted, self@.items.len()),
    {
        let n = self.items.len();
        if self.time_sorted.len() != n {
            return false;
        }
        let mut seen: Vec<bool> = Vec::new();
        let mut k: usize = 0;
        while k < n
            invariant
                k <= n,
                seen@.len() == k,
                forall|p: int| 0 <= p < k ==> !(#[trigger] seen@[p]),
            decreases n - k,
        {
            seen.push(false);
            k += 1;
        }
        let mut i: usize = 0;
        while i < n
            invariant
                i <= n,
                n == self.time_sorted@.len(),
                n == self@.items.len(),
                seen@.len() == n,
                forall|a: int| 0 <= a < i ==> (#[trigger] self.time_sorted@[a]) < n,
                forall|a: int, b: int|
                    #![trigger self.time_sorted@[a], self.time_sorted@[b]]
                    0 <= a < b < i ==> self.time_sorted@[a] != self.time_sorted@[b],
                forall|p: int|
                    0 <= p < n ==> (#[trigger] seen@[p] <==> exists|a: int|
                        0 <= a < i && self.time_sorted@[a] == p),
            decreases n - i,
        {
            let idx = self.time_sorted[i] as usize;
            if idx >= n {
                return false;
            }
            if seen[idx] {
                let ghost a = choose|a: int| 0 <= a < i && self.time_sorted@[a] == idx;
                assert(self.time_sorted@[a] == self.time_sorted@[i as int]);
                return false;
            }
            seen.set(idx, true);
            proof {
                assert forall|p: int| 0 <= p < n implies (#[trigger] seen@[p] <==> exists|a: int|
                    0 <= a < i + 1 && self.time_sorted@[a] == p) by {
                    if p == idx {
                        assert(self.time_sorted@[i as int] == p);
                    } else {
                        if seen@[p] {
                            let a = choose|a: int| 0 <= a < i && self.time_sorted@[a] == p;
                            assert(0 <= a < i + 1 && self.time_sorted@[a] == p);
                        }
                    }
                }
            }
            i += 1;
        }
        true
    }

    /// Whether the time order ascends by time key.
    #[verifier::rlimit(40)]
    fn time_order_ascends(&self) -> (r: bool)
        ensures
            r == ascending(self@.items, self@.time_sorted),
    {
        let n = self.time_sorted.len();
        if n == 0 {
            return true;
        }
        let mut i: usize = 0;
        while i < n - 1
            invariant
                i <= n - 1,
                n == self.time_sorted@.len(),
                forall|k: int|
                    0 <= k < i && k + 1 < n ==> key_of(self@.items, #[trigger] self.time_sorted@[k])
                        <= key_of(self@.items, self.time_sorted@[k + 1]),
            decreases n - i,
        {
            if self.time_key_at(self.time_sorted[i]) > self.time_key_at(self.time_sorted[i + 1]) {
                return false;
            }
            i += 1;
        }
        proof {
            assert(steps_in_time(self@.items, self@.time_sorted));
            assert forall|a: int, b: int|
                #![trigger self@.time_sorted[a], self@.time_sorted[b]]
                0 <= a < b < self@.time_sorted.len() implies key_of(
                self@.items,
                self@.time_sorted[a],
            ) <= key_of(self@.items, self@.time_sorted[b]) by {
                lemma_time_steps_reach(self@.items, self@.time_sorted, a, b);
            }
        }
        true
    }

    /// Whether every record lies within the part of the log that the index
    /// accounts for.
    fn covers_its_items(&self) -> (r: bool)
        ensures
            r == self@.covers_items(),
    {
        let mut i: usize = 0;
        while i < self.items.len()
            invariant
                i <= self.items.len(),
                forall|k: int|
                    0 <= k < i ==> (#[trigger] self@.items[k]).offset + self@.items[k].length
                        <= self@.indexed_up_to_offset,
            decreases self.items.len() - i,
        {
            assert(self@.items[i as int] == self.items@[i as int]@);
            let item = &self.items[i];
            if item.offset > self.indexed_up_to_offset || item.length as u64
                > self.indexed_up_to_offset - item.offset {
                return false;
            }
            i += 1;
        }
        true
    }

    /// Whether the postings file each record under its keywords and under
    /// no other.
    fn files_by_keywords(&self) -> (r: bool)
        requires
            self@.items.len() <= u32::MAX,
            postings_sound(self@.postings, self@.items.len()),
        ensures
            r == filed_by_keywords(self@.items, self@.postings),
    {
        let n = self.items.len();
        let ghost items = self@.items;
        let ghost postings = self@.postings;
        let mut p: usize = 0;
        while p < self.keyword_postings.len()
            invariant
                p <= self.keyword_postings.len(),
                n == items.len(),
                n <= u32::MAX,
                items == self@.items,
                postings == self@.postings,
                postings_sound(postings, n as nat),
                forall|a: int, j: int|
                    0 <= a < p && 0 <= j < postings[a].items.len() ==> items[(
                    #[trigger] postings[a].items[j]) as int].keywords.contains(postings[a].keyword),
            decreases self.keyword_postings.len() - p,
        {
            let posting = &self.keyword_postings[p];
            assert(postings[p as int] == posting@);
            assert(rising(postings[p as int].items, n as nat));
            let mut j: usize = 0;
            while j < posting.items.len()
                invariant
                    j <= posting.items.len(),
                    p < self.keyword_postings.len(),
                    n == items.len(),
                    items == self@.items,
                    postings == self@.postings,
                    postings_sound(postings, n as nat),
                    postings[p as int] == posting@,
                    rising(posting@.items, n as nat),
                    forall|b: int|
                        0 <= b < j ==> items[(#[trigger] posting@.items[b]) as int].keywords.contains(
                            posting@.keyword,
                        ),
                decreases posting.items.len() - j,
            {
                let idx = posting.items[j] as usize;
                assert(posting@.items[j as int] < n);
                assert(items[idx as int] == self.items@[idx as int]@);
                if !has_keyword(&self.items[idx].keywords, &posting.keyword) {
                    proof {
                        lemma_posting_at_unique(postings, posting@.keyword, p as int);
                        assert(records_with(postings, posting@.keyword) == posting@.items);
                        assert(records_with(postings, posting@.keyword).contains(idx as u32));
                    }
                    return false;
                }
                j += 1;
            }
            p += 1;
        }
        let mut i: usize = 0;
        while i < n
            invariant
                i <= n,
                n == items.len(),
                n <= u32::MAX,
                items == self@.items,
                postings == self@.postings,
                postings_sound(postings, n as nat),
                forall|a: int, k: int|
                    0 <= a < i && 0 <= k < items[a].keywords.len() ==> records_with(
                        postings,
                        #[trigger] items[a].keywords[k],
                    ).contains(a as u32),
            decreases n - i,
        {
            let item = &self.items[i];
            assert(items[i as int] == item@);
            let mut k: usize = 0;
            while k < item.keywords.len()
                invariant
                    k <= item.keywords.len(),
                    i < n,
                    n == items.len(),
                    n <= u32::MAX,
                    items == self@.items,
                    postings == self@.postings,
                    postings_sound(postings, n as nat),
                    items[i as int] == item@,
                    forall|b: int|
                        0 <= b < k ==> records_with(postings, #[trigger] item@.keywords[b]).contains(
                            i as u32,
                        ),
                decreases item.keywords.len() - k,
            {
                assert(item@.keywords[k as int] == item.keywords@[k as int]@);
                let found = match self.find_posting(&item.keywords[k]) {
                    Some(at) => {
                        assert(postings[at as int] == self.keyword_postings@[at as int]@);
                        assert(rising(postings[at as int].items, n as nat));
                        names(&self.keyword_postings[at].items, i as u32, Ghost(n as nat))
                    },
                    None => {
                        proof {
                            lemma_posting_at(postings, item@.keywords[k as int], 0);
                        }
                        false
                    },
                };
                if !found {
                    proof {
                        let keyword = item@.keywords[k as int];
                        assert(item@.keywords.contains(keyword));
                        assert(!records_with(postings, keyword).contains(i as u32));
                        assert(items[(i as u32) as int].keywords.contains(keyword));
                    }
                    return false;
                }
                k += 1;
            }
            i += 1;
        }
        proof {
            assert forall|keyword: Seq<char>, idx: u32| #[trigger]
                records_with(postings, keyword).contains(idx) <==> idx < items.len()
                    && items[idx as int].keywords.contains(keyword) by {
                let list = records_with(postings, keyword);
                if list.contains(idx) {
                    lemma_posting_at(postings, keyword, 0);
                    let at = posting_at(postings, keyword, 0);
                    let j = choose|j: int| 0 <= j < list.len() && list[j] == idx;
                    assert(rising(postings[at].items, n as nat));
                    assert(postings[at].items[j] == idx);
                    assert(items[(postings[at].items[j]) as int].keywords.contains(
                        postings[at].keyword,
                    ));
                }
                if idx < items.len() && items[idx as int].keywords.contains(keyword) {
                    let k = choose|k: int|
                        0 <= k < items[idx as int].keywords.len() && items[idx as int].keywords[k]
                            == keyword;
                    assert(records_with(postings, items[idx as int].keywords[k]).contains(
                        idx as int as u32,
                    ));
                }
            }
        }
        true
    }

    /// Whether the index is consistent in itself and with the extent of the
    /// log that it accounts for.
    pub fn is_consistent(&self) -> (r: bool)
        ensures
            r == self@.consistent(),
    {
        if self.items.len() > u32::MAX as usize {
            return false;
        }
        if !self.postings_are_sound() {
            return false;
        }
        if !self.files_by_keywords() {
            return false;
        }
        if !self.time_order_is_permutation() {
            return false;
        }
        if !self.time_sorted_dirty && !self.time_order_ascends() {
            return false;
        }
        self.covers_its_items()
    }
}

} // verus!
