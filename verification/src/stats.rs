//! Keywords across namespaces: how many namespaces use a keyword, and how
//! many records carry it in all.

use vstd::prelude::*;
use vstd::string::*;
use crate::index::{IndexData, IndexDataView, PostingView, INDEX_VERSION};
use crate::keywords::{
    is_time_like_keyword, lemma_lex_total, lemma_lex_transitive, lex_le, lex_no_later, time_like,
};
use crate::order::{rank, ranked, views, Ranked};
use crate::text::{chars_of, lowercase, same_text, string_of, trim, trimmed, unicode_lowercase};

verus! {

/// The use of one keyword across namespaces.
#[derive(Debug, Clone)]
pub struct KeywordStat {
    pub keyword: String,
    /// The number of postings of the keyword over all namespaces: one for
    /// each namespace that uses it.
    pub namespaces: usize,
    /// The number of records that carry the keyword, over all namespaces.
    pub items: usize,
}

/// The use of one keyword across namespaces, as a mathematical value.
pub struct KeywordStatView {
    pub keyword: Seq<char>,
    pub namespaces: nat,
    pub items: nat,
}

impl View for KeywordStat {
    type V = KeywordStatView;

    open spec fn view(&self) -> KeywordStatView {
        KeywordStatView {
            keyword: self.keyword@,
            namespaces: self.namespaces as nat,
            items: self.items as nat,
        }
    }
}

/// The views of a sequence of keyword statistics.
pub open spec fn stat_views(stats: Seq<KeywordStat>) -> Seq<KeywordStatView> {
    Seq::new(stats.len(), |i: int| stats[i]@)
}

/// What the aggregation over all namespaces found.
#[derive(Debug, Clone)]
pub struct GlobalKeywordStats {
    /// The number of indexes of the current version that were taken in.
    pub scanned_namespaces: usize,
    /// The keywords in use, shorter ones first, of one length the more
    /// widely used first, and of equal use in the order of the dictionary.
    pub keywords: Vec<KeywordStat>,
}

/// The form under which a stored keyword is counted: trimmed and in lower
/// case; none where that is empty or time-like.
pub open spec fn counted_form(keyword: Seq<char>) -> Option<Seq<char>> {
    let k = unicode_lowercase(trimmed(keyword));
    if k.len() == 0 || time_like(k) {
        None
    } else {
        Some(k)
    }
}

/// The position of the entry of `keyword` at or after `from`, or the number
/// of entries where it has none.
pub open spec fn entry_at(tally: Seq<KeywordStatView>, keyword: Seq<char>, from: int) -> int
    decreases tally.len() - from,
{
    if from < 0 || from >= tally.len() {
        tally.len() as int
    } else if tally[from].keyword == keyword {
        from
    } else {
        entry_at(tally, keyword, from + 1)
    }
}

/// The tally once one more posting of `keyword`, with `count` records, is
/// counted.
pub open spec fn counted(tally: Seq<KeywordStatView>, keyword: Seq<char>, count: nat) -> Seq<
    KeywordStatView,
> {
    let at = entry_at(tally, keyword, 0);
    if 0 <= at < tally.len() {
        tally.update(
            at,
            KeywordStatView {
                keyword,
                namespaces: tally[at].namespaces + 1,
                items: tally[at].items + count,
            },
        )
    } else {
        tally.push(KeywordStatView { keyword, namespaces: 1, items: count })
    }
}

/// The tally once the first `n` of the given postings are counted, each
/// under its counted form, if it has one.
pub open spec fn tallied_postings(
    tally: Seq<KeywordStatView>,
    postings: Seq<PostingView>,
    n: nat,
) -> Seq<KeywordStatView>
    decreases n,
{
    if n == 0 {
        tally
    } else {
        let before = tallied_postings(tally, postings, (n - 1) as nat);
        match counted_form(postings[n - 1].keyword) {
            Some(k) => counted(before, k, postings[n - 1].items.len()),
            None => before,
        }
    }
}

/// Whether an index is taken in: it is of the current version.
pub open spec fn accepted(index: IndexDataView) -> bool {
    index.version == INDEX_VERSION
}

/// The tally over the first `n` of the given indexes; those of another
/// version are passed over.
pub open spec fn tallied(indexes: Seq<IndexDataView>, n: nat) -> Seq<KeywordStatView>
    decreases n,
{
    if n == 0 {
        Seq::empty()
    } else {
        let before = tallied(indexes, (n - 1) as nat);
        if accepted(indexes[n - 1]) {
            tallied_postings(before, indexes[n - 1].postings, indexes[n - 1].postings.len())
        } else {
            before
        }
    }
}

/// The number of indexes among the first `n` that are taken in.
pub open spec fn scanned(indexes: Seq<IndexDataView>, n: nat) -> nat
    decreases n,
{
    if n == 0 {
        0
    } else {
        scanned(indexes, (n - 1) as nat) + if accepted(indexes[n - 1]) {
            1nat
        } else {
            0nat
        }
    }
}

/// What the first `n` postings weigh in the counts: one for each posting and
/// one for each record that it names.
pub open spec fn postings_load(postings: Seq<PostingView>, n: nat) -> nat
    decreases n,
{
    if n == 0 {
        0
    } else {
        postings_load(postings, (n - 1) as nat) + 1 + postings[n - 1].items.len()
    }
}

/// What the first `n` indexes weigh in the counts.
pub open spec fn load(indexes: Seq<IndexDataView>, n: nat) -> nat
    decreases n,
{
    if n == 0 {
        0
    } else {
        load(indexes, (n - 1) as nat) + if accepted(indexes[n - 1]) {
            postings_load(indexes[n - 1].postings, indexes[n - 1].postings.len())
        } else {
            0nat
        }
    }
}

/// Whether no count of the tally exceeds `bound`.
pub open spec fn within(tally: Seq<KeywordStatView>, bound: int) -> bool {
    forall|i: int| 0 <= i < tally.len() ==> (#[trigger] tally[i]).namespaces + tally[i].items <= bound
}

/// The views of the indexes.
pub open spec fn index_views(indexes: Seq<IndexData>) -> Seq<IndexDataView> {
    Seq::new(indexes.len(), |i: int| indexes[i]@)
}

/// A keyword with its counts, held by its characters so that it can be
/// compared and ranked.
pub struct StatRank {
    pub chars: Vec<char>,
    pub namespaces: usize,
    pub items: usize,
}

impl View for StatRank {
    type V = KeywordStatView;

    open spec fn view(&self) -> KeywordStatView {
        KeywordStatView {
            keyword: self.chars@,
            namespaces: self.namespaces as nat,
            items: self.items as nat,
        }
    }
}

impl Ranked for StatRank {
    /// Shorter keywords first; of one length the more widely used first; of
    /// equal use the one that comes first in the dictionary.
    open spec fn may_precede(a: KeywordStatView, b: KeywordStatView) -> bool {
        a.keyword.len() < b.keyword.len() || (a.keyword.len() == b.keyword.len() && (a.namespaces
            > b.namespaces || (a.namespaces == b.namespaces && lex_le(a.keyword, b.keyword, 0))))
    }

    fn precedes(&self, other: &Self) -> (r: bool) {
        if self.chars.len() != other.chars.len() {
            self.chars.len() < other.chars.len()
        } else if self.namespaces != other.namespaces {
            self.namespaces > other.namespaces
        } else {
            lex_no_later(&self.chars, &other.chars)
        }
    }

    proof fn lemma_total(a: KeywordStatView, b: KeywordStatView) {
        lemma_lex_total(a.keyword, b.keyword, 0);
    }

    proof fn lemma_transitive(a: KeywordStatView, b: KeywordStatView, c: KeywordStatView) {
        if a.keyword.len() == b.keyword.len() && b.keyword.len() == c.keyword.len()
            && a.namespaces == b.namespaces && b.namespaces == c.namespaces {
            lemma_lex_transitive(a.keyword, b.keyword, c.keyword, 0);
        }
    }
}

/// The keyword statistics in the order in which they are reported.
pub open spec fn reported(tally: Seq<KeywordStatView>) -> Seq<KeywordStatView> {
    ranked::<StatRank>(tally)
}

/// The position of the entry of `keyword`, if it has one.
fn find_entry(tally: &Vec<StatRank>, keyword: &Vec<char>) -> (r: Option<usize>)
    ensures
        r is Some <==> 0 <= entry_at(views(tally@), keyword@, 0) < tally@.len(),
        r matches Some(at) ==> at == entry_at(views(tally@), keyword@, 0),
{
    let mut i: usize = 0;
    while i < tally.len()
        invariant
            i <= tally.len(),
            entry_at(views(tally@), keyword@, 0) == entry_at(views(tally@), keyword@, i as int),
        decreases tally.len() - i,
    {
        assert(views(tally@)[i as int] == tally@[i as int]@);
        if same_text(&tally[i].chars, keyword) {
            return Some(i);
        }
        i += 1;
    }
    None
}

/// What `entry_at` finds: an entry of the keyword, or the end of the tally.
pub proof fn lemma_entry_at(tally: Seq<KeywordStatView>, keyword: Seq<char>, from: int)
    requires
        0 <= from,
    ensures
        entry_at(tally, keyword, from) <= tally.len(),
        from <= entry_at(tally, keyword, from) || entry_at(tally, keyword, from) == tally.len(),
        entry_at(tally, keyword, from) < tally.len() ==> tally[entry_at(
            tally,
            keyword,
            from,
        )].keyword == keyword,
    decreases tally.len() - from,
{
    if from < tally.len() && tally[from].keyword != keyword {
        lemma_entry_at(tally, keyword, from + 1);
    }
}

/// Counting one more posting adds one namespace and the records of the
/// posting to one entry, and so at most that much to the largest count.
pub proof fn lemma_counted_within(
    tally: Seq<KeywordStatView>,
    keyword: Seq<char>,
    count: nat,
    bound: int,
)
    requires
        within(tally, bound),
        0 <= bound,
    ensures
        within(counted(tally, keyword, count), bound + 1 + count),
{
    let after = counted(tally, keyword, count);
    let at = entry_at(tally, keyword, 0);
    lemma_entry_at(tally, keyword, 0);
    assert forall|i: int| 0 <= i < after.len() implies (#[trigger] after[i]).namespaces
        + after[i].items <= bound + 1 + count by {
        if i < tally.len() {
            assert(tally[i].namespaces + tally[i].items <= bound);
        }
    }
}

/// Counts one more posting of `keyword`, with `count` records.
fn count_posting(tally: &mut Vec<StatRank>, keyword: Vec<char>, count: usize, Ghost(bound): Ghost<int>)
    requires
        within(views(old(tally)@), bound),
        0 <= bound,
        bound + 1 + count <= usize::MAX,
    ensures
        views(final(tally)@) == counted(views(old(tally)@), keyword@, count as nat),
        within(views(final(tally)@), bound + 1 + count),
{
    let ghost before = views(tally@);
    proof {
        lemma_counted_within(before, keyword@, count as nat, bound);
        lemma_entry_at(before, keyword@, 0);
    }
    match find_entry(tally, &keyword) {
        Some(at) => {
            let ghost stored = tally@;
            assert(stored[at as int]@ == before[at as int]);
            assert(before[at as int].namespaces + before[at as int].items <= bound);
            tally[at].namespaces += 1;
            tally[at].items += count;
            proof {
                let after = counted(before, keyword@, count as nat);
                assert(views(tally@).len() == after.len());
                assert forall|i: int| 0 <= i < after.len() implies views(tally@)[i] == after[i] by {
                    assert(before[i] == stored[i]@);
                }
                assert(views(tally@) =~= after);
            }
        },
        None => {
            let ghost shown = keyword@;
            tally.push(StatRank { chars: keyword, namespaces: 1, items: count });
            assert(views(tally@) =~= counted(before, shown, count as nat));
        },
    }
}

/// The form under which a stored keyword is counted.
fn counted_form_of(keyword: &str) -> (r: Option<Vec<char>>)
    ensures
        match counted_form(keyword@) {
            Some(k) => r is Some && r->0@ == k,
            None => r is None,
        },
{
    let k = lowercase(&trim(&chars_of(keyword)));
    if k.len() == 0 {
        return None;
    }
    let shown = string_of(&k);
    if is_time_like_keyword(shown.as_str()) {
        return None;
    }
    Some(k)
}

/// A shorter run of postings weighs no more than a longer one.
pub proof fn lemma_postings_load_grows(postings: Seq<PostingView>, n: nat, m: nat)
    requires
        n <= m,
    ensures
        postings_load(postings, n) <= postings_load(postings, m),
    decreases m,
{
    if n < m {
        lemma_postings_load_grows(postings, n, (m - 1) as nat);
    }
}

/// A shorter run of indexes weighs no more than a longer one.
pub proof fn lemma_load_grows(indexes: Seq<IndexDataView>, n: nat, m: nat)
    requires
        n <= m,
    ensures
        load(indexes, n) <= load(indexes, m),
        scanned(indexes, n) <= scanned(indexes, m),
        scanned(indexes, m) <= m,
    decreases m,
{
    if n < m {
        lemma_load_grows(indexes, n, (m - 1) as nat);
    } else if m > 0 {
        lemma_load_grows(indexes, (m - 1) as nat, (m - 1) as nat);
    }
}

/// Aggregates the keywords of the given indexes.
///
/// An index of another version is passed over; every other index counts as
/// one scanned namespace. Each posting is counted under its keyword in
/// lower case and trimmed, unless that is empty or time-like: it adds one
/// to the namespaces of the keyword and the number of its records to the
/// items. The counts must fit the machine word: what the indexes weigh,
/// one for each posting and one for each record named in a posting, is at
/// most `usize::MAX`.
pub fn collect_global_keyword_stats(indexes: &Vec<IndexData>) -> (r: GlobalKeywordStats)
    requires
        load(index_views(indexes@), indexes@.len()) <= usize::MAX,
    ensures
        r.scanned_namespaces == scanned(index_views(indexes@), indexes@.len()),
        stat_views(r.keywords@) == reported(tallied(index_views(indexes@), indexes@.len())),
{
    let ghost all = index_views(indexes@);
    let mut tally: Vec<StatRank> = Vec::new();
    let mut scanned_namespaces: usize = 0;
    let mut i: usize = 0;
    assert(views(tally@) == Seq::<KeywordStatView>::empty());
    while i < indexes.len()
        invariant
            i <= indexes.len(),
            all == index_views(indexes@),
            load(all, indexes@.len()) <= usize::MAX,
            scanned_namespaces == scanned(all, i as nat),
            views(tally@) == tallied(all, i as nat),
            within(views(tally@), load(all, i as nat) as int),
        decreases indexes.len() - i,
    {
        let index = &indexes[i];
        proof {
            assert(all[i as int] == index@);
            lemma_load_grows(all, (i + 1) as nat, indexes@.len());
        }
        if index.version == INDEX_VERSION {
            scanned_namespaces += 1;
            let ghost base = load(all, i as nat);
            let ghost start = views(tally@);
            let mut j: usize = 0;
            while j < index.keyword_postings.len()
                invariant
                    j <= index.keyword_postings.len(),
                    index@.postings.len() == index.keyword_postings@.len(),
                    views(tally@) == tallied_postings(start, index@.postings, j as nat),
                    within(views(tally@), (base + postings_load(index@.postings, j as nat)) as int),
                    base + postings_load(index@.postings, index@.postings.len()) <= usize::MAX,
                decreases index.keyword_postings.len() - j,
            {
                let posting = &index.keyword_postings[j];
                proof {
                    assert(index@.postings[j as int] == posting@);
                    lemma_postings_load_grows(
                        index@.postings,
                        (j + 1) as nat,
                        index@.postings.len(),
                    );
                }
                match counted_form_of(posting.keyword.as_str()) {
                    Some(k) => {
                        count_posting(
                            &mut tally,
                            k,
                            posting.items.len(),
                            Ghost((base + postings_load(index@.postings, j as nat)) as int),
                        );
                    },
                    None => {
                        assert forall|e: int| 0 <= e < views(tally@).len() implies (
                        #[trigger] views(tally@)[e]).namespaces + views(tally@)[e].items <= base
                            + postings_load(index@.postings, (j + 1) as nat) by {
                            assert(views(tally@)[e].namespaces + views(tally@)[e].items <= base
                                + postings_load(index@.postings, j as nat));
                        }
                    },
                }
                j += 1;
            }
        }
        i += 1;
    }
    let sorted = rank(tally);
    let mut keywords: Vec<KeywordStat> = Vec::new();
    let mut k: usize = 0;
    while k < sorted.len()
        invariant
            k <= sorted.len(),
            stat_views(keywords@) == views(sorted@).take(k as int),
        decreases sorted.len() - k,
    {
        let ghost before = stat_views(keywords@);
        keywords.push(
            KeywordStat {
                keyword: string_of(&sorted[k].chars),
                namespaces: sorted[k].namespaces,
                items: sorted[k].items,
            },
        );
        assert(stat_views(keywords@) == before.push(sorted@[k as int]@));
        assert(views(sorted@).take(k + 1) == views(sorted@).take(k as int).push(sorted@[k as int]@));
        k += 1;
    }
    assert(views(sorted@).take(sorted.len() as int) == views(sorted@));
    GlobalKeywordStats { scanned_namespaces, keywords }
}

/// Whether no keyword has two entries in the tally.
pub open spec fn one_entry_each(tally: Seq<KeywordStatView>) -> bool {
    forall|i: int, j: int|
        #![trigger tally[i], tally[j]]
        0 <= i < j < tally.len() ==> tally[i].keyword != tally[j].keyword
}

/// Counting a posting keeps one entry for each keyword.
pub proof fn lemma_counted_one_entry_each(tally: Seq<KeywordStatView>, keyword: Seq<char>, count: nat)
    requires
        one_entry_each(tally),
    ensures
        one_entry_each(counted(tally, keyword, count)),
{
    let after = counted(tally, keyword, count);
    let at = entry_at(tally, keyword, 0);
    lemma_entry_at(tally, keyword, 0);
    lemma_entry_absent(tally, keyword, 0);
    assert forall|i: int, j: int|
        #![trigger after[i], after[j]]
        0 <= i < j < after.len() implies after[i].keyword != after[j].keyword by {
        if 0 <= at < tally.len() {
            assert(after[i].keyword == tally[i].keyword);
            assert(after[j].keyword == tally[j].keyword);
        } else {
            assert(after[i] == tally[i]);
            if j < tally.len() {
                assert(after[j] == tally[j]);
            }
        }
    }
}

/// Where `entry_at` finds nothing, the keyword has no entry.
pub proof fn lemma_entry_absent(tally: Seq<KeywordStatView>, keyword: Seq<char>, from: int)
    requires
        0 <= from,
    ensures
        entry_at(tally, keyword, from) >= tally.len() ==> forall|k: int|
            from <= k < tally.len() ==> (#[trigger] tally[k]).keyword != keyword,
    decreases tally.len() - from,
{
    if from < tally.len() && tally[from].keyword != keyword {
        lemma_entry_absent(tally, keyword, from + 1);
    }
}

/// The tally over postings keeps one entry for each keyword.
pub proof fn lemma_tallied_postings_one_entry_each(
    tally: Seq<KeywordStatView>,
    postings: Seq<PostingView>,
    n: nat,
)
    requires
        one_entry_each(tally),
    ensures
        one_entry_each(tallied_postings(tally, postings, n)),
    decreases n,
{
    if n > 0 {
        lemma_tallied_postings_one_entry_each(tally, postings, (n - 1) as nat);
        let before = tallied_postings(tally, postings, (n - 1) as nat);
        match counted_form(postings[n - 1].keyword) {
            Some(k) => lemma_counted_one_entry_each(before, k, postings[n - 1].items.len()),
            None => {},
        }
    }
}

/// What is reported has one entry for each keyword, however many indexes and
/// postings the keyword came from.
pub proof fn lemma_reported_one_entry_each(indexes: Seq<IndexDataView>, n: nat)
    ensures
        one_entry_each(tallied(indexes, n)),
        reported(tallied(indexes, n)).len() == tallied(indexes, n).len(),
        one_entry_each(reported(tallied(indexes, n))),
    decreases n,
{
    if n > 0 {
        lemma_reported_one_entry_each(indexes, (n - 1) as nat);
        if accepted(indexes[n - 1]) {
            lemma_tallied_postings_one_entry_each(
                tallied(indexes, (n - 1) as nat),
                indexes[n - 1].postings,
                indexes[n - 1].postings.len(),
            );
        }
    }
    let t = tallied(indexes, n);
    let r = reported(t);
    crate::order::lemma_ranked::<StatRank>(t);
    assert forall|i: int, j: int| #![trigger r[i], r[j]] 0 <= i < j < r.len() implies r[i].keyword
        != r[j].keyword by {
        crate::order::lemma_ranked_contains::<StatRank>(t, r[i]);
        crate::order::lemma_ranked_contains::<StatRank>(t, r[j]);
        assert(r.contains(r[i]) && r.contains(r[j]));
        let a = choose|a: int| 0 <= a < t.len() && t[a] == r[i];
        let b = choose|b: int| 0 <= b < t.len() && t[b] == r[j];
        if a == b {
            // One entry of the tally would stand at two places of the report.
            assert(t.no_duplicates()) by {
                assert forall|x: int, y: int| 0 <= x < t.len() && 0 <= y < t.len() && x
                    != y implies t[x] != t[y] by {
                    if x < y {
                        assert(t[x].keyword != t[y].keyword);
                    } else {
                        assert(t[y].keyword != t[x].keyword);
                    }
                }
            }
            t.lemma_multiset_has_no_duplicates();
            r.lemma_multiset_has_no_duplicates_conv();
            assert(r[i] != r[j]);
        } else if a < b {
            assert(t[a].keyword != t[b].keyword);
        } else {
            assert(t[b].keyword != t[a].keyword);
        }
    }
}

} // verus!
