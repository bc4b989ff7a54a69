//! What lists and searches answer: how many clips, which, and in which order.

use crate::embedding;
use crate::model::{ClipView, StoredClip};
use crate::order;
use crate::store::history::{self, HistoryView};
use crate::store::row::{self, RowView};
use crate::store::search::{self, Hit, MatchView, SearchHit, SearchMatch};
use crate::store::{self, StoreError};
use crate::text::{self, TokenClass};
use vstd::prelude::*;

verus! {

/// Rows that can all be read are decoded one by one.
proof fn lemma_decoded_one_by_one(rows: Seq<RowView>)
    ensures
        decoded_one_by_one(rows),
    decreases rows.len(),
{
    if rows.len() > 0 {
        let rest = rows.drop_last();
        lemma_decoded_one_by_one(rest);
        assert forall|i: int| 0 <= i < rest.len() implies rest[i] == #[trigger] rows[i] by {}
        assert(rows.last() == rows[rows.len() - 1]);
        match history::decoded_all(rows) {
            Ok(list) => {
                assert forall|i: int| 0 <= i < rows.len() implies row::decoded(#[trigger] rows[i])
                    == Ok::<ClipView, StoreError>(list[i]) by {
                    if i < rest.len() {
                        assert(rest[i] == rows[i]);
                    }
                }
            },
            Err(e) => {
                if history::decoded_all(rest) is Err {
                    let i = choose|i: int|
                        0 <= i < rest.len() && row::decoded(#[trigger] rest[i]) == Err::<ClipView, StoreError>(e)
                            && forall|j: int| 0 <= j < i ==> row::decoded(#[trigger] rest[j]) is Ok;
                    assert(row::decoded(rows[i]) == Err::<ClipView, StoreError>(e));
                    assert forall|j: int| 0 <= j < i implies row::decoded(#[trigger] rows[j]) is Ok by {
                        assert(rest[j] == rows[j]);
                    }
                } else {
                    assert forall|j: int| 0 <= j < rest.len() implies row::decoded(
                        #[trigger] rows[j],
                    ) is Ok by {
                        assert(rest[j] == rows[j]);
                    }
                    assert(row::decoded(rows[rows.len() - 1]) == Err::<ClipView, StoreError>(e));
                }
            },
        }
    }
}

/// Whether decoding rows gives the clip of each, or what is reported of the first that cannot be
/// read.
spec fn decoded_one_by_one(rows: Seq<RowView>) -> bool {
    match history::decoded_all(rows) {
        Ok(list) => list.len() == rows.len() && forall|i: int|
            0 <= i < rows.len() ==> row::decoded(#[trigger] rows[i]) == Ok::<ClipView, StoreError>(
                list[i],
            ),
        Err(e) => exists|i: int|
            0 <= i < rows.len() && row::decoded(#[trigger] rows[i]) == Err::<ClipView, StoreError>(e)
                && forall|j: int| 0 <= j < i ==> row::decoded(#[trigger] rows[j]) is Ok,
    }
}

// ---------------------------------------------------------------------------
// Lists
// ---------------------------------------------------------------------------

/// A list has exactly as many clips as are asked for, but at least one and at most 100 000, or all
/// where the history has fewer. Pinned clips come first, then those that were used last, then those
/// with the earlier identifier, and nothing is left out that comes before what is listed. It fails
/// only where a clip that belongs into it cannot be read.
pub proof fn lists_are_the_first_clips(
    view: HistoryView,
    limit: usize,
    r: Result<Vec<StoredClip>, StoreError>,
) -> (picks: Seq<int>)
    requires
        history::is_list_answer(r, view, limit),
        view.rows.len() <= usize::MAX,
    ensures
        ({
            let most = if limit < 1 {
                1
            } else if limit > 100_000 {
                100_000
            } else {
                limit as int
            };
            let before = |a: RowView, b: RowView|
                (a.pinned && !b.pinned) || (a.pinned == b.pinned && (order::text_before(
                    b.last_used_at,
                    a.last_used_at,
                ) || (b.last_used_at == a.last_used_at && order::text_before(a.id, b.id))));
            &&& picks.len() == (if view.rows.len() <= most {
                view.rows.len() as int
            } else {
                most
            })
            &&& forall|a: int| 0 <= a < picks.len() ==> 0 <= #[trigger] picks[a] < view.rows.len()
            &&& forall|a: int, b: int|
                0 <= a < b < picks.len() ==> #[trigger] picks[a] != #[trigger] picks[b] && !before(
                    view.rows[picks[b]],
                    view.rows[picks[a]],
                )
            &&& forall|a: int, m: int|
                0 <= a < picks.len() && 0 <= m < view.rows.len() && !picks.contains(m) ==> !before(
                    #[trigger] view.rows[m],
                    view.rows[#[trigger] picks[a]],
                )
            &&& view.rows.len() <= most ==> forall|m: int|
                0 <= m < view.rows.len() ==> #[trigger] picks.contains(m)
            &&& r matches Ok(clips) ==> clips@.len() == picks.len() && forall|a: int|
                0 <= a < picks.len() ==> row::decoded(view.rows[picks[a]]) == Ok::<
                    ClipView,
                    StoreError,
                >((#[trigger] clips@[a])@)
            &&& r matches Err(e) ==> exists|a: int|
                0 <= a < picks.len() && row::decoded(view.rows[#[trigger] picks[a]]) == Err::<
                    ClipView,
                    StoreError,
                >(e)
        }),
{
    let found = choose|picks: Seq<usize>| #[trigger]
        view.is_listing(picks, limit) && history::is_decoded_list(
            r,
            history::decoded_all(history::rows_at(view.rows, picks)),
        );
    let by_row = |i: int, j: int| history::listed_before(view.rows[i], view.rows[j]);
    let most = if limit < 1 {
        1nat
    } else if limit > 100_000 {
        100_000nat
    } else {
        limit as nat
    };
    assert(order::is_page(found, view.rows.len(), most, by_row));
    order::pages_are_the_first_items(found, view.rows.len(), most, by_row);
    let picks = found.map_values(|i: usize| i as int);
    let rows = history::rows_at(view.rows, found);
    lemma_decoded_one_by_one(rows);
    assert forall|a: int| 0 <= a < picks.len() implies #[trigger] picks[a] == found[a] && rows[a]
        == view.rows[picks[a]] by {}
    assert forall|a: int, b: int| 0 <= a < b < picks.len() implies #[trigger] picks[a]
        != #[trigger] picks[b] && !by_row(picks[b], picks[a]) by {
        assert(found[a] != found[b]);
    }
    assert forall|a: int, m: int|
        0 <= a < picks.len() && 0 <= m < view.rows.len() && !picks.contains(m) implies !by_row(
        m,
        #[trigger] picks[a],
    ) && #[trigger] view.rows[m] == view.rows[m] by {
        assert forall|b: int| 0 <= b < found.len() implies m as usize != #[trigger] found[b] by {
            assert(picks[b] == found[b]);
        }
        assert(!by_row(m, found[a] as int));
    }
    if view.rows.len() <= most {
        assert forall|m: int| 0 <= m < view.rows.len() implies #[trigger] picks.contains(m) by {
            order::roomy_pages_are_complete(found, view.rows.len(), most, by_row, m);
            let a = choose|a: int| 0 <= a < found.len() && found[a] == m as usize;
            assert(picks[a] == m);
        }
    }
    match r {
        Ok(clips) => {
            let views = history::decoded_all(rows)->Ok_0;
            assert(history::clip_views(clips@) == views);
            assert forall|a: int| 0 <= a < picks.len() implies row::decoded(view.rows[picks[a]]) == Ok::<
                ClipView,
                StoreError,
            >((#[trigger] clips@[a])@) by {
                assert(views[a] == clips@[a]@);
                assert(rows[a] == view.rows[picks[a]]);
            }
        },
        Err(e) => {
            let a = choose|a: int|
                0 <= a < rows.len() && row::decoded(#[trigger] rows[a]) == Err::<ClipView, StoreError>(e)
                    && forall|j: int| 0 <= j < a ==> row::decoded(#[trigger] rows[j]) is Ok;
            assert(row::decoded(view.rows[picks[a]]) == Err::<ClipView, StoreError>(e));
        },
    }
    picks
}

// ---------------------------------------------------------------------------
// Searches
// ---------------------------------------------------------------------------

/// From which match each hit comes, and of which row it is.
proof fn lemma_hits_come_from_matches(rows: Seq<RowView>, matches: Seq<MatchView>) -> (sources: Seq<
    int,
>)
    requires
        forall|i: int, j: int| 0 <= i < j < rows.len() ==> #[trigger] rows[i].id != #[trigger] rows[j].id,
    ensures
        sources.len() == search::hits(rows, matches).len(),
        forall|j: int|
            0 <= j < sources.len() ==> {
                let m = #[trigger] sources[j];
                let hit = search::hits(rows, matches)[j];
                &&& 0 <= m < matches.len()
                &&& hit.rank == matches[m].rank
                &&& hit.row.id == matches[m].id
                &&& rows.contains(hit.row)
            },
        forall|i: int, j: int| 0 <= i < j < sources.len() ==> #[trigger] sources[i] < #[trigger] sources[j],
        forall|m: int|
            0 <= m < matches.len() && (exists|i: int|
                0 <= i < rows.len() && (#[trigger] rows[i]).id == matches[m].id)
                ==> #[trigger] sources.contains(m),
        sources.len() == matches.filter(
            |m: MatchView| exists|i: int| 0 <= i < rows.len() && (#[trigger] rows[i]).id == m.id,
        ).len(),
    decreases matches.len(),
{
    let known = |m: MatchView| exists|i: int| 0 <= i < rows.len() && (#[trigger] rows[i]).id == m.id;
    reveal_with_fuel(Seq::filter, 2);
    if matches.len() == 0 {
        seq![]
    } else {
        let rest = matches.drop_last();
        let last = matches.last();
        let n = rest.len() as int;
        let before = lemma_hits_come_from_matches(rows, rest);
        assert forall|m: int| 0 <= m < n implies rest[m] == #[trigger] matches[m] by {}
        if history::has_id(rows, last.id) {
            let i = choose|i: int| 0 <= i < rows.len() && (#[trigger] rows[i]).id == last.id;
            let row = search::row_with_id(rows, last.id);
            assert(row == rows[i]);
            assert(rows.contains(row));
            let sources = before.push(n);
            assert(known(last));
            assert forall|m: int|
                0 <= m < matches.len() && (exists|i: int|
                    0 <= i < rows.len() && (#[trigger] rows[i]).id == matches[m].id) implies #[trigger]
            sources.contains(m) by {
                if m < n {
                    assert(rest[m] == matches[m]);
                    assert(before.contains(m));
                    let j = choose|j: int| 0 <= j < before.len() && before[j] == m;
                    assert(sources[j] == m);
                } else {
                    assert(sources[before.len() as int] == n);
                }
            }
            assert forall|j: int| 0 <= j < sources.len() implies {
                let m = #[trigger] sources[j];
                let hit = search::hits(rows, matches)[j];
                &&& 0 <= m < matches.len()
                &&& hit.rank == matches[m].rank
                &&& hit.row.id == matches[m].id
                &&& rows.contains(hit.row)
            } by {
                if j < before.len() {
                    assert(sources[j] == before[j]);
                    assert(rest[before[j]] == matches[before[j]]);
                }
            }
            sources
        } else {
            assert(!known(last));
            assert forall|m: int|
                0 <= m < matches.len() && (exists|i: int|
                    0 <= i < rows.len() && (#[trigger] rows[i]).id == matches[m].id) implies #[trigger]
            before.contains(m) by {
                if m < n {
                    assert(rest[m] == matches[m]);
                } else {
                    assert(history::has_id(rows, last.id));
                }
            }
            assert forall|j: int| 0 <= j < before.len() implies {
                let m = #[trigger] before[j];
                let hit = search::hits(rows, matches)[j];
                &&& 0 <= m < matches.len()
                &&& hit.rank == matches[m].rank
                &&& hit.row.id == matches[m].id
                &&& rows.contains(hit.row)
            } by {
                assert(rest[before[j]] == matches[before[j]]);
            }
            before
        }
    }
}

/// Which matches are ranked, of which rows, and in which order. The first result names matches, the
/// second the rows of the same clips.
proof fn lemma_ranking(
    rows: Seq<RowView>,
    matches: Seq<MatchView>,
    limit: usize,
    pinned_first: bool,
    found: Seq<usize>,
) -> (picks: (Seq<int>, Seq<int>))
    requires
        forall|i: int, j: int| 0 <= i < j < rows.len() ==> #[trigger] rows[i].id != #[trigger] rows[j].id,
        search::is_ranking(found, search::hits(rows, matches), limit, pinned_first),
        matches.len() <= usize::MAX,
    ensures
        ({
            let most = if limit < 1 {
                1
            } else if limit > 1000 {
                1000
            } else {
                limit as int
            };
            let known = matches.filter(
                |m: MatchView| exists|i: int| 0 <= i < rows.len() && (#[trigger] rows[i]).id == m.id,
            ).len();
            let before = |r: RowView, a: MatchView, s: RowView, b: MatchView|
                if pinned_first && r.pinned != s.pinned {
                    r.pinned
                } else {
                    a.rank < b.rank || (a.rank == b.rank && order::text_before(
                        s.last_used_at,
                        r.last_used_at,
                    ))
                };
            &&& picks.0.len() == picks.1.len() == found.len()
            &&& picks.0.len() == (if known <= most {
                known as int
            } else {
                most
            })
            &&& forall|a: int|
                #![trigger picks.0[a]]
                #![trigger picks.1[a]]
                0 <= a < picks.0.len() ==> {
                    &&& 0 <= picks.0[a] < matches.len()
                    &&& 0 <= picks.1[a] < rows.len()
                    &&& rows[picks.1[a]].id == matches[picks.0[a]].id
                    &&& search::hit_rows(search::hits(rows, matches), found)[a] == rows[picks.1[a]]
                    &&& search::hit_ranks(search::hits(rows, matches), found)[a]
                        == matches[picks.0[a]].rank
                }
            &&& forall|a: int, b: int|
                0 <= a < b < picks.0.len() ==> #[trigger] picks.0[a] != #[trigger] picks.0[b] && !before(
                    rows[picks.1[b]],
                    matches[picks.0[b]],
                    rows[picks.1[a]],
                    matches[picks.0[a]],
                )
            &&& forall|a: int, m: int, k: int|
                #![trigger picks.0[a], matches[m], rows[k]]
                0 <= a < picks.0.len() && 0 <= m < matches.len() && 0 <= k < rows.len() && rows[k].id
                    == matches[m].id && !picks.0.contains(m) ==> !before(
                    rows[k],
                    matches[m],
                    rows[picks.1[a]],
                    matches[picks.0[a]],
                )
            &&& known <= most ==> forall|m: int, k: int|
                #![trigger matches[m], rows[k]]
                0 <= m < matches.len() && 0 <= k < rows.len() && rows[k].id == matches[m].id
                    ==> picks.0.contains(m)
        }),
{
    let all = search::hits(rows, matches);
    let sources = lemma_hits_come_from_matches(rows, matches);
    let most = if limit < 1 {
        1nat
    } else if limit > 1000 {
        1000nat
    } else {
        limit as nat
    };
    let by_hit = |i: int, j: int| search::hit_before(all[i], all[j], pinned_first);
    assert(order::is_page(found, all.len(), most, by_hit));
    order::pages_are_the_first_items(found, all.len(), most, by_hit);
    let named = found.map_values(|i: usize| sources[i as int]);
    let at = found.map_values(
        |i: usize| choose|k: int| 0 <= k < rows.len() && rows[k] == all[i as int].row,
    );
    assert forall|a: int|
        #![trigger named[a]]
        #![trigger at[a]]
        0 <= a < found.len() implies {
        &&& 0 <= named[a] < matches.len()
        &&& 0 <= at[a] < rows.len()
        &&& rows[at[a]] == all[found[a] as int].row
        &&& rows[at[a]].id == matches[named[a]].id
        &&& search::hit_rows(all, found)[a] == rows[at[a]]
        &&& search::hit_ranks(all, found)[a] == matches[named[a]].rank
        &&& all[found[a] as int].rank == matches[named[a]].rank
    } by {
        let j = found[a] as int;
        assert(j < all.len());
        assert(named[a] == sources[j]);
        assert(rows.contains(all[j].row));
        let k = choose|k: int| 0 <= k < rows.len() && rows[k] == all[j].row;
        assert(rows[k] == all[j].row);
        assert(at[a] == k);
    }
    assert forall|a: int, b: int| 0 <= a < b < found.len() implies #[trigger] named[a]
        != #[trigger] named[b] && !by_hit(found[b] as int, found[a] as int) by {
        assert(found[a] != found[b]);
        let i = found[a] as int;
        let j = found[b] as int;
        assert(i < all.len() && j < all.len());
        if i < j {
            assert(sources[i] < sources[j]);
        } else {
            assert(sources[j] < sources[i]);
        }
    }
    assert forall|a: int, m: int, k: int|
        #![trigger named[a], matches[m], rows[k]]
        0 <= a < found.len() && 0 <= m < matches.len() && 0 <= k < rows.len() && rows[k].id
            == matches[m].id && !named.contains(m) implies {
        &&& !search::hit_before(Hit { row: rows[k], rank: matches[m].rank }, all[found[a] as int], pinned_first)
    } by {
        assert(sources.contains(m));
        let j = choose|j: int| 0 <= j < sources.len() && sources[j] == m;
        let hit = all[j];
        assert(rows.contains(hit.row));
        let i = choose|i: int| 0 <= i < rows.len() && rows[i] == hit.row;
        if i < k {
            assert(rows[i].id != rows[k].id);
        } else if k < i {
            assert(rows[k].id != rows[i].id);
        }
        lemma_hits_are_few(rows, matches);
        assert forall|b: int| 0 <= b < found.len() implies j as usize != #[trigger] found[b] by {
            if j as usize == found[b] {
                assert(named[b] == m);
            }
        }
        assert(!by_hit(j, found[a] as int));
    }
    if all.len() <= most {
        assert forall|m: int, k: int|
            #![trigger matches[m], rows[k]]
            0 <= m < matches.len() && 0 <= k < rows.len() && rows[k].id == matches[m].id implies named.contains(
            m,
        ) by {
            assert(sources.contains(m));
            let j = choose|j: int| 0 <= j < sources.len() && sources[j] == m;
            lemma_hits_are_few(rows, matches);
            order::roomy_pages_are_complete(found, all.len(), most, by_hit, j);
            let a = choose|a: int| 0 <= a < found.len() && found[a] == j as usize;
            assert(named[a] == m);
        }
    }
    (named, at)
}

proof fn lemma_hits_are_few(rows: Seq<RowView>, matches: Seq<MatchView>)
    ensures
        search::hits(rows, matches).len() <= matches.len(),
    decreases matches.len(),
{
    if matches.len() > 0 {
        lemma_hits_are_few(rows, matches.drop_last());
    }
}

/// A text search answers with exactly as many clips as are asked for, but at least one and at most
/// 1000, or with every clip that the index found and the history has, where these are fewer. Pinned
/// clips come first, then those with the better rank, then those that were used last, and nothing is
/// left out that comes before what is answered. It fails only where a clip that belongs into the
/// answer cannot be read. The results name the matches and the rows of the clips.
pub proof fn text_searches_find_every_match(
    view: HistoryView,
    matches: Seq<MatchView>,
    limit: usize,
    r: Result<Vec<StoredClip>, StoreError>,
) -> (picks: (Seq<int>, Seq<int>))
    requires
        view.wf(),
        matches.len() <= usize::MAX,
        search::is_text_answer(r, view, matches, limit),
    ensures
        ({
            let rows = view.rows;
            let most = if limit < 1 {
                1
            } else if limit > 1000 {
                1000
            } else {
                limit as int
            };
            let known = matches.filter(
                |m: MatchView| exists|i: int| 0 <= i < rows.len() && (#[trigger] rows[i]).id == m.id,
            ).len();
            let before = |r: RowView, a: MatchView, s: RowView, b: MatchView|
                if r.pinned != s.pinned {
                    r.pinned
                } else {
                    a.rank < b.rank || (a.rank == b.rank && order::text_before(
                        s.last_used_at,
                        r.last_used_at,
                    ))
                };
            &&& picks.0.len() == picks.1.len() == (if known <= most {
                known as int
            } else {
                most
            })
            &&& forall|a: int|
                #![trigger picks.0[a]]
                #![trigger picks.1[a]]
                0 <= a < picks.0.len() ==> {
                    &&& 0 <= picks.0[a] < matches.len()
                    &&& 0 <= picks.1[a] < rows.len()
                    &&& rows[picks.1[a]].id == matches[picks.0[a]].id
                }
            &&& forall|a: int, b: int|
                0 <= a < b < picks.0.len() ==> #[trigger] picks.0[a] != #[trigger] picks.0[b] && !before(
                    rows[picks.1[b]],
                    matches[picks.0[b]],
                    rows[picks.1[a]],
                    matches[picks.0[a]],
                )
            &&& forall|a: int, m: int, k: int|
                #![trigger picks.0[a], matches[m], rows[k]]
                0 <= a < picks.0.len() && 0 <= m < matches.len() && 0 <= k < rows.len() && rows[k].id
                    == matches[m].id && !picks.0.contains(m) ==> !before(
                    rows[k],
                    matches[m],
                    rows[picks.1[a]],
                    matches[picks.0[a]],
                )
            &&& known <= most ==> forall|m: int, k: int|
                #![trigger matches[m], rows[k]]
                0 <= m < matches.len() && 0 <= k < rows.len() && rows[k].id == matches[m].id
                    ==> picks.0.contains(m)
            &&& r matches Ok(clips) ==> clips@.len() == picks.0.len() && forall|a: int|
                0 <= a < clips@.len() ==> row::decoded(rows[picks.1[a]]) == Ok::<ClipView, StoreError>(
                    (#[trigger] clips@[a])@,
                )
            &&& r matches Err(e) ==> exists|a: int|
                0 <= a < picks.0.len() && row::decoded(rows[#[trigger] picks.1[a]]) == Err::<
                    ClipView,
                    StoreError,
                >(e)
        }),
{
    let all = search::hits(view.rows, matches);
    let found = choose|picks: Seq<usize>| #[trigger]
        search::is_ranking(picks, all, limit, true) && history::is_decoded_list(
            r,
            history::decoded_all(search::hit_rows(all, picks)),
        );
    let picks = lemma_ranking(view.rows, matches, limit, true, found);
    let rows = search::hit_rows(all, found);
    lemma_decoded_one_by_one(rows);
    match r {
        Ok(clips) => {
            let views = history::decoded_all(rows)->Ok_0;
            assert forall|a: int| 0 <= a < clips@.len() implies row::decoded(view.rows[picks.1[a]])
                == Ok::<ClipView, StoreError>((#[trigger] clips@[a])@) by {
                assert(views[a] == clips@[a]@);
                assert(rows[a] == view.rows[picks.1[a]]);
            }
        },
        Err(e) => {
            let a = choose|a: int|
                0 <= a < rows.len() && row::decoded(#[trigger] rows[a]) == Err::<ClipView, StoreError>(e)
                    && forall|j: int| 0 <= j < a ==> row::decoded(#[trigger] rows[j]) is Ok;
            assert(row::decoded(view.rows[picks.1[a]]) == Err::<ClipView, StoreError>(e));
        },
    }
    picks
}

/// A vector search answers with exactly as many clips as are asked for, but at least one and at most
/// 1000, or with every clip that the index found and the history has, where these are fewer. The
/// nearest come first, pinned or not, then those that were used last, each with its distance, and
/// nothing is left out that comes before what is answered.
pub proof fn vector_searches_find_every_match(
    view: HistoryView,
    matches: Seq<MatchView>,
    limit: usize,
    r: Result<Vec<SearchHit>, StoreError>,
) -> (picks: (Seq<int>, Seq<int>))
    requires
        view.wf(),
        matches.len() <= usize::MAX,
        search::is_vector_answer(r, view, matches, limit),
    ensures
        ({
            let rows = view.rows;
            let most = if limit < 1 {
                1
            } else if limit > 1000 {
                1000
            } else {
                limit as int
            };
            let known = matches.filter(
                |m: MatchView| exists|i: int| 0 <= i < rows.len() && (#[trigger] rows[i]).id == m.id,
            ).len();
            let before = |r: RowView, a: MatchView, s: RowView, b: MatchView|
                a.rank < b.rank || (a.rank == b.rank && order::text_before(
                    s.last_used_at,
                    r.last_used_at,
                ));
            &&& picks.0.len() == picks.1.len() == (if known <= most {
                known as int
            } else {
                most
            })
            &&& forall|a: int|
                #![trigger picks.0[a]]
                #![trigger picks.1[a]]
                0 <= a < picks.0.len() ==> {
                    &&& 0 <= picks.0[a] < matches.len()
                    &&& 0 <= picks.1[a] < rows.len()
                    &&& rows[picks.1[a]].id == matches[picks.0[a]].id
                }
            &&& forall|a: int, b: int|
                0 <= a < b < picks.0.len() ==> #[trigger] picks.0[a] != #[trigger] picks.0[b] && !before(
                    rows[picks.1[b]],
                    matches[picks.0[b]],
                    rows[picks.1[a]],
                    matches[picks.0[a]],
                )
            &&& forall|a: int, m: int, k: int|
                #![trigger picks.0[a], matches[m], rows[k]]
                0 <= a < picks.0.len() && 0 <= m < matches.len() && 0 <= k < rows.len() && rows[k].id
                    == matches[m].id && !picks.0.contains(m) ==> !before(
                    rows[k],
                    matches[m],
                    rows[picks.1[a]],
                    matches[picks.0[a]],
                )
            &&& known <= most ==> forall|m: int, k: int|
                #![trigger matches[m], rows[k]]
                0 <= m < matches.len() && 0 <= k < rows.len() && rows[k].id == matches[m].id
                    ==> picks.0.contains(m)
            &&& r matches Ok(list) ==> list@.len() == picks.0.len() && forall|a: int|
                0 <= a < list@.len() ==> row::decoded(rows[picks.1[a]]) == Ok::<ClipView, StoreError>(
                    (#[trigger] list@[a]).clip@,
                ) && list@[a].distance == matches[picks.0[a]].rank
            &&& r matches Err(e) ==> exists|a: int|
                0 <= a < picks.0.len() && row::decoded(rows[#[trigger] picks.1[a]]) == Err::<
                    ClipView,
                    StoreError,
                >(e)
        }),
{
    let all = search::hits(view.rows, matches);
    let found = choose|picks: Seq<usize>| #[trigger]
        search::is_ranking(picks, all, limit, false) && match history::decoded_all(
            search::hit_rows(all, picks),
        ) {
            Ok(views) => r matches Ok(list) && search::hit_clips(list@) == views
                && search::hit_distances(list@) == search::hit_ranks(all, picks),
            Err(error) => r matches Err(e) && e == error,
        };
    let picks = lemma_ranking(view.rows, matches, limit, false, found);
    let rows = search::hit_rows(all, found);
    lemma_decoded_one_by_one(rows);
    match r {
        Ok(list) => {
            let views = history::decoded_all(rows)->Ok_0;
            assert(search::hit_clips(list@) == views);
            assert forall|a: int| 0 <= a < list@.len() implies row::decoded(view.rows[picks.1[a]])
                == Ok::<ClipView, StoreError>((#[trigger] list@[a]).clip@) && list@[a].distance
                == matches[picks.0[a]].rank by {
                assert(views[a] == list@[a].clip@);
                assert(rows[a] == view.rows[picks.1[a]]);
                assert(search::hit_distances(list@)[a] == list@[a].distance);
                assert(search::hit_ranks(all, found)[a] == matches[picks.0[a]].rank);
            }
        },
        Err(e) => {
            let a = choose|a: int|
                0 <= a < rows.len() && row::decoded(#[trigger] rows[a]) == Err::<ClipView, StoreError>(e)
                    && forall|j: int| 0 <= j < a ==> row::decoded(#[trigger] rows[j]) is Ok;
            assert(row::decoded(view.rows[picks.1[a]]) == Err::<ClipView, StoreError>(e));
        },
    }
    picks
}

// ---------------------------------------------------------------------------
// Queries
// ---------------------------------------------------------------------------

/// Quotes are doubled, every other character stays, and the order stays.
pub proof fn quotes_are_doubled(a: Seq<char>, b: Seq<char>)
    ensures
        a.len() == 0 ==> store::doubled_quotes(a).len() == 0,
        a.len() == 1 ==> store::doubled_quotes(a) == (if a[0] == '"' {
            seq!['"', '"']
        } else {
            a
        }),
        store::doubled_quotes(a + b) == store::doubled_quotes(a) + store::doubled_quotes(b),
    decreases b.len(),
{
    if a.len() == 1 {
        assert(a.drop_last() =~= Seq::empty());
        assert(store::doubled_quotes(a.drop_last()) =~= Seq::empty());
        assert(store::doubled_quotes(a) =~= if a[0] == '"' {
            seq!['"', '"']
        } else {
            a
        });
    }
    if b.len() == 0 {
        assert(a + b =~= a);
        assert(store::doubled_quotes(a) + store::doubled_quotes(b) =~= store::doubled_quotes(a));
    } else {
        let all = a + b;
        assert(all.drop_last() =~= a + b.drop_last());
        assert(all.last() == b.last());
        quotes_are_doubled(a, b.drop_last());
        assert(store::doubled_quotes(all) =~= store::doubled_quotes(a) + store::doubled_quotes(b));
    }
}

/// What a text index is asked: every word of the query as a phrase in quotes, and all of them.
pub proof fn queries_ask_for_every_word(query: Seq<char>)
    ensures
        ({
            let words = text::runs(query, TokenClass::NonBlank);
            let phrases = Seq::new(
                words.len(),
                |i: int| seq!['"'] + store::doubled_quotes(words[i]) + seq!['"'],
            );
            store::search_expression(query) == text::joined(
                phrases,
                seq![' ', 'A', 'N', 'D', ' '],
            )
        }),
{
    let words = text::runs(query, TokenClass::NonBlank);
    reveal_strlit(" AND ");
    assert(" AND "@ =~= seq![' ', 'A', 'N', 'D', ' ']);
    assert(words.map_values(|token: Seq<char>| store::phrase(token)) =~= Seq::new(
        words.len(),
        |i: int| seq!['"'] + store::doubled_quotes(words[i]) + seq!['"'],
    ));
}

/// A query with nothing but white space lists the history. Every other query is put to the index
/// once, as the phrases of its words, and what the index answers decides: its failure is passed on,
/// and its matches are ranked.
pub proof fn queries_with_words_are_put_to_the_index<
    F: FnOnce(&str) -> Result<Vec<SearchMatch>, StoreError>,
>(
    search: F,
    view: HistoryView,
    query: Seq<char>,
    limit: usize,
    r: Result<Vec<StoredClip>, StoreError>,
)
    requires
        search::is_text_search(search, view, query, limit, r),
    ensures
        (forall|i: int| 0 <= i < query.len() ==> text::is_white_space(#[trigger] query[i]))
            ==> history::is_list_answer(r, view, limit),
        (exists|i: int| 0 <= i < query.len() && !text::is_white_space(#[trigger] query[i])) ==> exists|
            expression: &str,
            answer: Result<Vec<SearchMatch>, StoreError>,
        |
            {
                &&& expression@ == store::search_expression(query)
                &&& #[trigger] call_ensures(search, (expression,), answer)
                &&& answer matches Err(error) ==> r == Err::<Vec<StoredClip>, StoreError>(error)
                &&& answer matches Ok(matches) ==> search::is_text_answer(
                    r,
                    view,
                    Seq::new(
                        matches@.len(),
                        |i: int| MatchView { id: matches@[i].id@, rank: matches@[i].rank },
                    ),
                    limit,
                )
            },
{
    if exists|i: int| 0 <= i < query.len() && !text::is_white_space(#[trigger] query[i]) {
        let (expression, answer) = choose|
            expression: &str,
            answer: Result<Vec<SearchMatch>, StoreError>,
        |
            {
                &&& expression@ == store::search_expression(query)
                &&& #[trigger] call_ensures(search, (expression,), answer)
                &&& match answer {
                    Ok(matches) => search::is_text_answer(r, view, search::match_views(matches@), limit),
                    Err(error) => r matches Err(e) && e == error,
                }
            };
        match answer {
            Ok(matches) => {
                assert(search::match_views(matches@) =~= Seq::new(
                    matches@.len(),
                    |i: int| MatchView { id: matches@[i].id@, rank: matches@[i].rank },
                ));
            },
            Err(error) => {},
        }
        assert(call_ensures(search, (expression,), answer));
    }
}

/// A query whose numbers are all zero finds nothing. The numbers of every other query are put to the
/// index, and what the index answers decides: its failure is passed on, and its matches are ranked.
pub proof fn queries_with_a_direction_are_put_to_the_index<
    F: FnOnce(&[i32]) -> Result<Vec<SearchMatch>, StoreError>,
>(
    search: F,
    view: HistoryView,
    query: Seq<char>,
    limit: usize,
    r: Result<Vec<SearchHit>, StoreError>,
)
    requires
        search::is_vector_search(search, view, query, limit, r),
    ensures
        ({
            let numbers = embedding::tallied(embedding::token_digests(query));
            &&& (forall|i: int| 0 <= i < numbers.len() ==> #[trigger] numbers[i] == 0) ==> (
            r matches Ok(list) && list@.len() == 0)
            &&& (exists|i: int| 0 <= i < numbers.len() && #[trigger] numbers[i] != 0) ==> exists|
                asked: &[i32],
                answer: Result<Vec<SearchMatch>, StoreError>,
            |
                {
                    &&& asked@.len() == numbers.len()
                    &&& forall|i: int| 0 <= i < numbers.len() ==> #[trigger] asked@[i] == numbers[i]
                    &&& #[trigger] call_ensures(search, (asked,), answer)
                    &&& answer matches Err(error) ==> r == Err::<Vec<SearchHit>, StoreError>(error)
                    &&& answer matches Ok(matches) ==> search::is_vector_answer(
                        r,
                        view,
                        Seq::new(
                            matches@.len(),
                            |i: int| MatchView { id: matches@[i].id@, rank: matches@[i].rank },
                        ),
                        limit,
                    )
                }
        }),
{
    let numbers = embedding::tallied(embedding::token_digests(query));
    let buckets = choose|buckets: Seq<i32>|
        {
            &&& #[trigger] embedding::numbers(buckets) == numbers
            &&& embedding::is_directionless(buckets) ==> (r matches Ok(list) && list@.len() == 0)
            &&& !embedding::is_directionless(buckets) ==> exists|
                asked: &[i32],
                answer: Result<Vec<SearchMatch>, StoreError>,
            |
                {
                    &&& asked@ == buckets
                    &&& #[trigger] call_ensures(search, (asked,), answer)
                    &&& match answer {
                        Ok(matches) => search::is_vector_answer(
                            r,
                            view,
                            search::match_views(matches@),
                            limit,
                        ),
                        Err(error) => r matches Err(e) && e == error,
                    }
                }
        };
    assert forall|i: int| 0 <= i < numbers.len() implies #[trigger] numbers[i] == buckets[i] by {}
    if exists|i: int| 0 <= i < numbers.len() && #[trigger] numbers[i] != 0 {
        let i = choose|i: int| 0 <= i < numbers.len() && #[trigger] numbers[i] != 0;
        assert(buckets[i] != 0);
        assert(!embedding::is_directionless(buckets));
        let (asked, answer) = choose|asked: &[i32], answer: Result<Vec<SearchMatch>, StoreError>|
            {
                &&& asked@ == buckets
                &&& #[trigger] call_ensures(search, (asked,), answer)
                &&& match answer {
                    Ok(matches) => search::is_vector_answer(
                        r,
                        view,
                        search::match_views(matches@),
                        limit,
                    ),
                    Err(error) => r matches Err(e) && e == error,
                }
            };
        match answer {
            Ok(matches) => {
                assert(search::match_views(matches@) =~= Seq::new(
                    matches@.len(),
                    |i: int| MatchView { id: matches@[i].id@, rank: matches@[i].rank },
                ));
            },
            Err(error) => {},
        }
        assert(call_ensures(search, (asked,), answer));
    } else {
        assert(embedding::is_directionless(buckets)) by {
            assert forall|i: int| 0 <= i < buckets.len() implies #[trigger] buckets[i] == 0 by {
                assert(numbers[i] == buckets[i]);
            }
        }
    }
}

} // verus!
