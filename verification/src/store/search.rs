//! Searching: what is asked of the indexes, and in which order their answers come back.

use crate::embedding::{self, HashEmbedding};
use crate::model::{ClipView, StoredClip};
use crate::order::{self, Ranked};
use crate::store::history::{self, HistoryStore, HistoryView, MAX_SEARCH_RESULTS};
use crate::store::row::RowView;
use crate::store::{self, StoreError};
use crate::text;
use vstd::prelude::*;

verus! {

/// What an index found: a clip, and a number that is smaller the better the clip matches.
#[derive(Clone, Debug, PartialEq, Eq)]
pub struct SearchMatch {
    pub id: String,
    pub rank: u64,
}

/// The contents of a match.
pub struct MatchView {
    pub id: Seq<char>,
    pub rank: u64,
}

impl View for SearchMatch {
    type V = MatchView;

    open spec fn view(&self) -> MatchView {
        MatchView { id: self.id@, rank: self.rank }
    }
}

/// The contents of matches.
pub open spec fn match_views(matches: Seq<SearchMatch>) -> Seq<MatchView> {
    matches.map_values(|m: SearchMatch| m@)
}

/// A clip with the number by which it was ranked.
#[derive(Clone, Debug, PartialEq, Eq)]
pub struct SearchHit {
    pub clip: StoredClip,
    pub distance: u64,
}

/// A row with its rank.
pub struct Hit {
    pub row: RowView,
    pub rank: u64,
}

/// The row with an identifier.
pub open spec fn row_with_id(rows: Seq<RowView>, id: Seq<char>) -> RowView {
    rows[choose|i: int| 0 <= i < rows.len() && (#[trigger] rows[i]).id == id]
}

/// The matches of which the history has a row, in the order in which they came.
pub open spec fn hits(rows: Seq<RowView>, matches: Seq<MatchView>) -> Seq<Hit>
    decreases matches.len(),
{
    if matches.len() == 0 {
        seq![]
    } else {
        let before = hits(rows, matches.drop_last());
        let last = matches.last();
        if history::has_id(rows, last.id) {
            before.push(Hit { row: row_with_id(rows, last.id), rank: last.rank })
        } else {
            before
        }
    }
}

/// Whether a hit goes before another: where it counts, pinned ones first; then the better rank;
/// then the one that was used last.
pub open spec fn hit_before(a: Hit, b: Hit, pinned_first: bool) -> bool {
    if pinned_first && a.row.pinned != b.row.pinned {
        a.row.pinned
    } else if a.rank != b.rank {
        a.rank < b.rank
    } else {
        order::text_before(b.row.last_used_at, a.row.last_used_at)
    }
}

/// Whether indices name the best hits, in order.
pub open spec fn is_ranking(
    picks: Seq<usize>,
    found: Seq<Hit>,
    limit: usize,
    pinned_first: bool,
) -> bool {
    order::is_page(
        picks,
        found.len(),
        history::clamped(limit as nat, 1, MAX_SEARCH_RESULTS as nat),
        |i: int, j: int| hit_before(found[i], found[j], pinned_first),
    )
}

/// The rows of the hits at indices.
pub open spec fn hit_rows(found: Seq<Hit>, picks: Seq<usize>) -> Seq<RowView> {
    picks.map_values(|i: usize| found[i as int].row)
}

/// The ranks of the hits at indices.
pub open spec fn hit_ranks(found: Seq<Hit>, picks: Seq<usize>) -> Seq<u64> {
    picks.map_values(|i: usize| found[i as int].rank)
}

/// The clips of search hits.
pub open spec fn hit_clips(list: Seq<SearchHit>) -> Seq<ClipView> {
    list.map_values(|hit: SearchHit| hit.clip@)
}

/// The distances of search hits.
pub open spec fn hit_distances(list: Seq<SearchHit>) -> Seq<u64> {
    list.map_values(|hit: SearchHit| hit.distance)
}

/// Whether a result is the best hits of the matches, decoded, pinned ones first.
pub open spec fn is_text_answer(
    r: Result<Vec<StoredClip>, StoreError>,
    view: HistoryView,
    matches: Seq<MatchView>,
    limit: usize,
) -> bool {
    let found = hits(view.rows, matches);
    exists|picks: Seq<usize>| #[trigger]
        is_ranking(picks, found, limit, true) && history::is_decoded_list(
            r,
            history::decoded_all(hit_rows(found, picks)),
        )
}

/// Whether a result is the best hits of the matches, decoded, with their distances.
pub open spec fn is_vector_answer(
    r: Result<Vec<SearchHit>, StoreError>,
    view: HistoryView,
    matches: Seq<MatchView>,
    limit: usize,
) -> bool {
    let found = hits(view.rows, matches);
    exists|picks: Seq<usize>| #[trigger]
        is_ranking(picks, found, limit, false) && match history::decoded_all(
            hit_rows(found, picks),
        ) {
            Ok(views) => r matches Ok(list) && hit_clips(list@) == views && hit_distances(list@)
                == hit_ranks(found, picks),
            Err(error) => r matches Err(e) && e == error,
        }
}

/// Whether a result answers a query: the history, where the query has no words, and otherwise what
/// the index finds for it.
pub open spec fn is_text_search<F: FnOnce(&str) -> Result<Vec<SearchMatch>, StoreError>>(
    search: F,
    view: HistoryView,
    query: Seq<char>,
    limit: usize,
    r: Result<Vec<StoredClip>, StoreError>,
) -> bool {
    &&& text::is_blank(query) ==> history::is_list_answer(r, view, limit)
    &&& !text::is_blank(query) ==> exists|
        expression: &str,
        answer: Result<Vec<SearchMatch>, StoreError>,
    |
        {
            &&& expression@ == store::search_expression(query)
            &&& #[trigger] call_ensures(search, (expression,), answer)
            &&& match answer {
                Ok(matches) => is_text_answer(r, view, match_views(matches@), limit),
                Err(error) => r matches Err(e) && e == error,
            }
        }
}

/// Whether a result answers a query: nothing, where the query has no direction, and otherwise what
/// the index finds for it.
pub open spec fn is_vector_search<F: FnOnce(&[i32]) -> Result<Vec<SearchMatch>, StoreError>>(
    search: F,
    view: HistoryView,
    query: Seq<char>,
    limit: usize,
    r: Result<Vec<SearchHit>, StoreError>,
) -> bool {
    exists|buckets: Seq<i32>|
        {
            &&& #[trigger] embedding::numbers(buckets) == embedding::tallied(
                embedding::token_digests(query),
            )
            &&& embedding::is_directionless(buckets) ==> (r matches Ok(list) && list@.len() == 0)
            &&& !embedding::is_directionless(buckets) ==> exists|
                asked: &[i32],
                answer: Result<Vec<SearchMatch>, StoreError>,
            |
                {
                    &&& asked@ == buckets
                    &&& #[trigger] call_ensures(search, (asked,), answer)
                    &&& match answer {
                        Ok(matches) => is_vector_answer(r, view, match_views(matches@), limit),
                        Err(error) => r matches Err(e) && e == error,
                    }
                }
        }
}

/// What decides on the place of a hit.
struct HitKey {
    index: usize,
    first: bool,
    rank: u64,
    last_used_at: String,
}

impl Ranked for HitKey {
    closed spec fn before(&self, other: &Self) -> bool {
        if self.first != other.first {
            self.first
        } else if self.rank != other.rank {
            self.rank < other.rank
        } else {
            order::text_before(other.last_used_at@, self.last_used_at@)
        }
    }

    proof fn before_is_an_order(a: &Self, b: &Self, c: &Self) {
        order::texts_are_totally_ordered(a.last_used_at@, b.last_used_at@, c.last_used_at@);
        order::texts_are_totally_ordered(c.last_used_at@, b.last_used_at@, a.last_used_at@);
        order::texts_are_totally_ordered(a.last_used_at@, c.last_used_at@, b.last_used_at@);
        order::texts_are_totally_ordered(b.last_used_at@, c.last_used_at@, a.last_used_at@);
    }

    fn goes_before(&self, other: &Self) -> (r: bool) {
        if self.first != other.first {
            self.first
        } else if self.rank != other.rank {
            self.rank < other.rank
        } else {
            order::comes_before(other.last_used_at.as_str(), self.last_used_at.as_str())
        }
    }
}

impl HitKey {
    /// The key of a hit on a row.
    spec fn is_of(self, rows: Seq<RowView>, hit: Hit, pinned_first: bool) -> bool {
        &&& self.index < rows.len()
        &&& rows[self.index as int] == hit.row
        &&& self.first == (pinned_first && hit.row.pinned)
        &&& self.rank == hit.rank
        &&& self.last_used_at@ == hit.row.last_used_at
    }
}

impl HistoryStore {
    /// The keys of the hits.
    fn hit_keys(&self, matches: &[SearchMatch], pinned_first: bool) -> (keys: Vec<HitKey>)
        requires
            self.wf(),
        ensures
            keys@.len() == hits(self@.rows, match_views(matches@)).len(),
            forall|j: int|
                0 <= j < keys@.len() ==> (#[trigger] keys@[j]).is_of(
                    self@.rows,
                    hits(self@.rows, match_views(matches@))[j],
                    pinned_first,
                ),
    {
        let ghost all = match_views(matches@);
        let ghost rows = self@.rows;
        let mut keys: Vec<HitKey> = Vec::new();
        let mut i: usize = 0;
        assert(all.take(0) =~= Seq::empty());
        while i < matches.len()
            invariant
                i <= matches@.len(),
                all == match_views(matches@),
                rows == self@.rows,
                self.wf(),
                keys@.len() == hits(rows, all.take(i as int)).len(),
                forall|j: int|
                    0 <= j < keys@.len() ==> (#[trigger] keys@[j]).is_of(
                        rows,
                        hits(rows, all.take(i as int))[j],
                        pinned_first,
                    ),
            decreases matches@.len() - i,
        {
            let ghost more = all.take(i + 1);
            assert(more.drop_last() =~= all.take(i as int));
            assert(more.last() == matches@[i as int]@);
            match self.find_id(matches[i].id.as_str()) {
                Some(index) => {
                    let row = &self.rows()[index];
                    proof {
                        let id = matches@[i as int].id@;
                        let k = choose|k: int| 0 <= k < rows.len() && (#[trigger] rows[k]).id == id;
                        assert(rows[index as int].id == id);
                        if k < index {
                            assert(rows[k].id != rows[index as int].id);
                        } else if index < k {
                            assert(rows[index as int].id != rows[k].id);
                        }
                    }
                    keys.push(
                        HitKey {
                            index,
                            first: pinned_first && row.pinned,
                            rank: matches[i].rank,
                            last_used_at: row.last_used_at.clone(),
                        },
                    );
                },
                None => {},
            }
            i = i + 1;
        }
        assert(all.take(i as int) =~= all);
        keys
    }

    /// The rows of the best hits, and their ranks.
    fn best_hits(&self, matches: &[SearchMatch], limit: usize, pinned_first: bool) -> (best: (
        Vec<usize>,
        Vec<u64>,
        Ghost<Seq<usize>>,
    ))
        requires
            self.wf(),
        ensures
            is_ranking(
                best.2@,
                hits(self@.rows, match_views(matches@)),
                limit,
                pinned_first,
            ),
            forall|a: int| 0 <= a < best.0@.len() ==> #[trigger] best.0@[a] < self@.rows.len(),
            history::rows_at(self@.rows, best.0@) == hit_rows(
                hits(self@.rows, match_views(matches@)),
                best.2@,
            ),
            best.1@ == hit_ranks(hits(self@.rows, match_views(matches@)), best.2@),
    {
        let ghost found = hits(self@.rows, match_views(matches@));
        let ghost rows = self@.rows;
        let k: usize = history::clamp(limit, 1, MAX_SEARCH_RESULTS);
        let keys = self.hit_keys(matches, pinned_first);
        let picks = order::first_in_order(keys.as_slice(), k);
        proof {
            let by_key = |i: int, j: int| keys@[i].before(&keys@[j]);
            let by_hit = |i: int, j: int| hit_before(found[i], found[j], pinned_first);
            assert forall|i: int, j: int|
                0 <= i < found.len() && 0 <= j < found.len() implies #[trigger] by_key(i, j)
                == by_hit(i, j) by {
                assert(keys@[i].is_of(rows, found[i], pinned_first));
                assert(keys@[j].is_of(rows, found[j], pinned_first));
            }
            history::lemma_same_page(picks@, found.len(), k as nat, by_key, by_hit);
        }
        let mut indices: Vec<usize> = Vec::new();
        let mut ranks: Vec<u64> = Vec::new();
        let mut i: usize = 0;
        while i < picks.len()
            invariant
                i <= picks@.len(),
                rows == self@.rows,
                keys@.len() == found.len(),
                forall|j: int|
                    0 <= j < keys@.len() ==> (#[trigger] keys@[j]).is_of(
                        rows,
                        found[j],
                        pinned_first,
                    ),
                forall|a: int| 0 <= a < picks@.len() ==> #[trigger] picks@[a] < found.len(),
                indices@.len() == i,
                ranks@.len() == i,
                forall|a: int|
                    0 <= a < i ==> #[trigger] indices@[a] < rows.len() && rows[indices@[a] as int]
                        == found[picks@[a] as int].row,
                forall|a: int| 0 <= a < i ==> #[trigger] ranks@[a] == found[picks@[a] as int].rank,
            decreases picks@.len() - i,
        {
            assert(picks@[i as int] < found.len());
            let key = &keys[picks[i]];
            assert(key.is_of(rows, found[picks@[i as int] as int], pinned_first));
            indices.push(key.index);
            ranks.push(key.rank);
            i = i + 1;
        }
        assert(history::rows_at(rows, indices@) =~= hit_rows(found, picks@));
        assert(ranks@ =~= hit_ranks(found, picks@));
        (indices, ranks, Ghost(picks@))
    }

    /// The clips that a text index found: pinned ones first, then the best, then those that were
    /// used last.
    pub fn rank_text_matches(&self, matches: &[SearchMatch], limit: usize) -> (r: Result<
        Vec<StoredClip>,
        StoreError,
    >)
        requires
            self.wf(),
        ensures
            is_text_answer(r, self@, match_views(matches@), limit),
    {
        let (indices, ranks, picks) = self.best_hits(matches, limit, true);
        let r = self.decode_at(indices.as_slice());
        assert(is_ranking(picks@, hits(self@.rows, match_views(matches@)), limit, true));
        r
    }

    /// The clips that a vector index found: the nearest first, then those that were used last.
    pub fn rank_vector_matches(&self, matches: &[SearchMatch], limit: usize) -> (r: Result<
        Vec<SearchHit>,
        StoreError,
    >)
        requires
            self.wf(),
        ensures
            is_vector_answer(r, self@, match_views(matches@), limit),
    {
        let ghost found = hits(self@.rows, match_views(matches@));
        let (indices, ranks, picks) = self.best_hits(matches, limit, false);
        let ghost expected = history::decoded_all(hit_rows(found, picks@));
        assert(is_ranking(picks@, found, limit, false));
        match self.decode_at(indices.as_slice()) {
            Ok(clips) => {
                let ghost views = history::clip_views(clips@);
                proof {
                    history::lemma_decoded_length(hit_rows(found, picks@));
                    assert(views.len() == ranks@.len());
                }
                let list = with_distances(clips, ranks.as_slice());
                assert(hit_clips(list@) == views);
                Ok(list)
            },
            Err(e) => Err(e),
        }
    }

    /// The clips that match a query. A query without words lists the history.
    pub fn text_search<F: FnOnce(&str) -> Result<Vec<SearchMatch>, StoreError>>(
        &self,
        query: &str,
        limit: usize,
        search: F,
    ) -> (r: Result<Vec<StoredClip>, StoreError>)
        requires
            self.wf(),
            forall|expression: &str|
                expression@ == store::search_expression(query@) ==> #[trigger] call_requires(
                    search,
                    (expression,),
                ),
        ensures
            is_text_search(search, self@, query@, limit, r),
    {
        proof {
            store::blank_queries_have_no_expression(query@);
        }
        let expression = store::fts_expression(query);
        if text::to_chars(expression.as_str()).len() == 0 {
            return self.list(limit);
        }
        let asked = expression.as_str();
        let answer = search(asked);
        let ghost given = answer;
        assert(call_ensures(search, (asked,), given));
        match answer {
            Ok(matches) => self.rank_text_matches(matches.as_slice(), limit),
            Err(e) => Err(e),
        }
    }

    /// The clips whose vectors are nearest to that of a query. A query without a direction has
    /// none.
    pub fn vector_search<F: FnOnce(&[i32]) -> Result<Vec<SearchMatch>, StoreError>>(
        &self,
        query: &str,
        limit: usize,
        search: F,
    ) -> (r: Result<Vec<SearchHit>, StoreError>)
        requires
            self.wf(),
            forall|buckets: &[i32]|
                embedding::numbers(buckets@) == embedding::tallied(embedding::token_digests(query@))
                    ==> #[trigger] call_requires(search, (buckets,)),
        ensures
            is_vector_search(search, self@, query@, limit, r),
    {
        let buckets = HashEmbedding.buckets(query);
        if !embedding::has_direction(buckets.as_slice()) {
            assert(embedding::numbers(buckets@) == embedding::tallied(
                embedding::token_digests(query@),
            ));
            return Ok(Vec::new());
        }
        let asked = buckets.as_slice();
        let answer = search(asked);
        let ghost given = answer;
        assert(asked@ == buckets@);
        assert(call_ensures(search, (asked,), given));
        let r = match answer {
            Ok(matches) => self.rank_vector_matches(matches.as_slice(), limit),
            Err(e) => Err(e),
        };
        assert(embedding::numbers(buckets@) == embedding::tallied(
            embedding::token_digests(query@),
        ));
        r
    }
}

/// Clips with their distances.
fn with_distances(clips: Vec<StoredClip>, distances: &[u64]) -> (list: Vec<SearchHit>)
    requires
        clips@.len() == distances@.len(),
    ensures
        hit_clips(list@) == history::clip_views(clips@),
        hit_distances(list@) == distances@,
{
    let ghost views = history::clip_views(clips@);
    let mut rest = clips;
    let mut reversed: Vec<SearchHit> = Vec::new();
    let n: usize = rest.len();
    while rest.len() > 0
        invariant
            n == distances@.len(),
            n == views.len(),
            rest@.len() + reversed@.len() == n,
            history::clip_views(rest@) == views.take(rest@.len() as int),
            forall|i: int|
                0 <= i < reversed@.len() ==> (#[trigger] reversed@[i]).clip@ == views[n - 1 - i]
                    && reversed@[i].distance == distances@[n - 1 - i],
        decreases rest@.len(),
    {
        let ghost before = rest@;
        let k: usize = rest.len() - 1;
        assert(history::clip_views(before)[k as int] == views[k as int]);
        match rest.pop() {
            Some(clip) => {
                assert(clip@ == views[k as int]);
                reversed.push(SearchHit { clip, distance: distances[k] });
                assert(history::clip_views(rest@) =~= views.take(k as int)) by {
                    assert forall|j: int| 0 <= j < k implies history::clip_views(rest@)[j]
                        == views[j] by {
                        assert(history::clip_views(before)[j] == views[j]);
                    }
                }
            },
            None => {},
        }
    }
    let mut list: Vec<SearchHit> = Vec::new();
    while reversed.len() > 0
        invariant
            n == distances@.len(),
            n == views.len(),
            list@.len() + reversed@.len() == n,
            forall|i: int|
                0 <= i < reversed@.len() ==> (#[trigger] reversed@[i]).clip@ == views[n - 1 - i]
                    && reversed@[i].distance == distances@[n - 1 - i],
            forall|i: int|
                0 <= i < list@.len() ==> (#[trigger] list@[i]).clip@ == views[i]
                    && list@[i].distance == distances@[i],
        decreases reversed@.len(),
    {
        match reversed.pop() {
            Some(hit) => {
                list.push(hit);
            },
            None => {},
        }
    }
    assert(hit_clips(list@) =~= views);
    assert(hit_distances(list@) =~= distances@);
    list
}

} // verus!
