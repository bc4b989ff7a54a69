//! What holds of every history.

use crate::model::{self, ClipView, InputView, UtcTime};
use crate::order;
use crate::store::changes;
use crate::store::history::{self, HistoryView};
use crate::store::retention;
use crate::store::row::{self, RowView};
use crate::store::{self, StoreError};
use crate::{codec, text, time};
use vstd::prelude::*;

verus! {

// ---------------------------------------------------------------------------
// Retention
// ---------------------------------------------------------------------------

/// Where there is an unpinned row, one of them is the oldest.
pub proof fn lemma_oldest_exists(rows: Seq<RowView>, n: int) -> (m: int)
    requires
        retention::ids_are_distinct(rows),
        0 <= n <= rows.len(),
        exists|i: int| 0 <= i < n && !(#[trigger] rows[i]).pinned,
    ensures
        0 <= m < n,
        !rows[m].pinned,
        forall|j: int|
            0 <= j < n && j != m && !(#[trigger] rows[j]).pinned ==> retention::more_recent(rows[j], rows[m]),
    decreases n,
{
    let last = rows[n - 1];
    if exists|i: int| 0 <= i < n - 1 && !(#[trigger] rows[i]).pinned {
        let k = lemma_oldest_exists(rows, n - 1);
        if last.pinned {
            k
        } else {
            assert(rows[k].id != rows[n - 1].id);
            retention::recency_is_an_order(rows[k], last, rows[k]);
            if retention::more_recent(rows[k], last) {
                assert forall|j: int|
                    0 <= j < n && j != n - 1 && !(#[trigger] rows[j]).pinned implies retention::more_recent(
                    rows[j],
                    rows[n - 1],
                ) by {
                    if j != k {
                        retention::recency_is_an_order(rows[j], rows[k], last);
                    }
                }
                n - 1
            } else {
                k
            }
        }
    } else {
        n - 1
    }
}

/// Pruning leaves exactly as many unpinned rows as the limit allows, or all of them where they are
/// fewer.
pub proof fn pruning_keeps_the_limit(rows: Seq<RowView>, limit: nat)
    requires
        retention::ids_are_distinct(rows),
    ensures
        retention::unpinned(retention::pruned(rows, limit)) == if retention::unpinned(rows) < limit {
            retention::unpinned(rows)
        } else {
            limit
        },
    decreases rows.len(),
{
    if retention::unpinned(rows) <= limit {
        retention::lemma_pruned_within_limit(rows, limit);
    } else {
        if forall|i: int| 0 <= i < rows.len() ==> (#[trigger] rows[i]).pinned {
            retention::lemma_count_bounds(rows, |r: RowView| !r.pinned);
        }
        let m = lemma_oldest_exists(rows, rows.len() as int);
        retention::lemma_pruned_without_oldest(rows, limit, m);
        let rest = rows.remove(m);
        assert forall|i: int, j: int| 0 <= i < j < rest.len() implies #[trigger] rest[i].id
            != #[trigger] rest[j].id by {
            let a = if i < m {
                i
            } else {
                i + 1
            };
            let b = if j < m {
                j
            } else {
                j + 1
            };
            assert(rest[i] == rows[a] && rest[j] == rows[b]);
        }
        pruning_keeps_the_limit(rest, limit);
    }
}

/// Pruning keeps every pinned row, and of the unpinned ones those that were used most recently:
/// what stays is more recent than what goes.
pub proof fn pruning_keeps_the_most_recent(rows: Seq<RowView>, limit: nat, i: int, j: int)
    requires
        retention::ids_are_distinct(rows),
        0 <= i < rows.len(),
        0 <= j < rows.len(),
    ensures
        rows[i].pinned ==> retention::pruned(rows, limit).contains(rows[i]),
        !rows[i].pinned && retention::pruned(rows, limit).contains(rows[i]) && !retention::pruned(rows, limit).contains(
            rows[j],
        ) ==> retention::more_recent(rows[i], rows[j]),
{
    let kept = retention::pruned(rows, limit);
    retention::lemma_filter_members(rows, |r: RowView| retention::stays(rows, limit, r));
    assert(rows.contains(rows[i]));
    assert(rows.contains(rows[j]));
    if !rows[i].pinned && kept.contains(rows[i]) && !kept.contains(rows[j]) {
        assert(retention::stays(rows, limit, rows[i]));
        assert(!retention::stays(rows, limit, rows[j]));
        assert(i != j);
        if i < j {
            assert(rows[i].id != rows[j].id);
        } else {
            assert(rows[j].id != rows[i].id);
        }
        retention::recency_is_an_order(rows[i], rows[j], rows[i]);
        if retention::more_recent(rows[j], rows[i]) {
            lemma_newer_grows(rows, i, j);
        }
    }
}

/// A row that is more recent has fewer rows before it.
proof fn lemma_newer_grows(rows: Seq<RowView>, i: int, j: int)
    requires
        0 <= i < rows.len(),
        0 <= j < rows.len(),
        !rows[j].pinned,
        retention::more_recent(rows[j], rows[i]),
    ensures
        retention::newer(rows, rows[j]) < retention::newer(rows, rows[i]),
{
    let a = rows[i];
    let b = rows[j];
    let p = |r: RowView| !r.pinned && retention::more_recent(r, b);
    let q = |r: RowView| !r.pinned && retention::more_recent(r, a);
    retention::recency_is_an_order(b, b, b);
    retention::lemma_count_remove(rows, p, j);
    retention::lemma_count_remove(rows, q, j);
    assert forall|r: RowView| p(r) implies #[trigger] q(r) by {
        retention::recency_is_an_order(r, b, a);
    }
    retention::lemma_count_implies(rows.remove(j), p, q);
}

/// What stays was there, in the same form.
pub proof fn pruning_adds_nothing(rows: Seq<RowView>, limit: nat)
    ensures
        retention::pruned(rows, limit).len() <= rows.len(),
        forall|r: RowView| #[trigger] retention::pruned(rows, limit).contains(r) ==> rows.contains(r),
        retention::ids_are_distinct(rows) ==> retention::ids_are_distinct(retention::pruned(rows, limit)),
{
    retention::lemma_filter_members(rows, |r: RowView| retention::stays(rows, limit, r));
}

// ---------------------------------------------------------------------------
// Captures
// ---------------------------------------------------------------------------

/// The row that a capture adds or uses again, and the rows before the limit is enforced.
spec fn captured(view: HistoryView, input: InputView, id: u128, now: UtcTime) -> (
    Seq<RowView>,
    RowView,
) {
    let stamp = time::rfc3339(now.seconds, now.nanoseconds)->Some_0;
    let hash = store::hash_of(input);
    match history::latest_match(view.rows, hash) {
        Some(i) => {
            let row = RowView { last_used_at: stamp, ..view.rows[i] };
            (view.rows.update(i, row), row)
        },
        None => {
            let row = row::row_of(input, hash, id, stamp);
            (view.rows.push(row), row)
        },
    }
}

pub proof fn lemma_latest_in_range(rows: Seq<RowView>, hash: Seq<char>)
    ensures
        history::latest_match(rows, hash) matches Some(i) ==> 0 <= i < rows.len()
            && rows[i].content_sha256 == hash,
{
    if exists|i: int| history::is_latest_match(rows, hash, i) {
        let i = choose|i: int| history::is_latest_match(rows, hash, i);
        assert(history::is_latest_match(rows, hash, i));
    }
}

proof fn lemma_captured(view: HistoryView, input: InputView, id: u128, now: UtcTime)
    requires
        view.wf(),
        view.inserting(input, id, now) is Ok,
    ensures
        ({
            let (next, clip) = view.inserting(input, id, now)->Ok_0;
            let (rows, row) = captured(view, input, id, now);
            let limit = store::limit_of(view.limit)->Ok_0;
            &&& store::limit_of(view.limit) is Ok
            &&& retention::ids_are_distinct(rows)
            &&& rows.contains(row)
            &&& row.content_sha256 == store::hash_of(input)
            &&& retention::stays(rows, limit as nat, row)
            &&& row::decoded(row) == Ok::<ClipView, StoreError>(clip)
            &&& next == (HistoryView { limit: view.limit, rows: retention::pruned(rows, limit as nat) })
        }),
{
    let hash = store::hash_of(input);
    let (rows, row) = captured(view, input, id, now);
    lemma_latest_in_range(view.rows, hash);
    match history::latest_match(view.rows, hash) {
        Some(i) => {
            assert(rows[i] == row);
            assert forall|a: int, b: int| 0 <= a < b < rows.len() implies #[trigger] rows[a].id
                != #[trigger] rows[b].id by {
                assert(view.rows[a].id != view.rows[b].id);
            }
        },
        None => {
            assert(rows[view.rows.len() as int] == row);
            assert forall|a: int, b: int| 0 <= a < b < rows.len() implies #[trigger] rows[a].id
                != #[trigger] rows[b].id by {
                if b == view.rows.len() {
                    assert(view.rows[a].id != row.id);
                } else {
                    assert(view.rows[a].id != view.rows[b].id);
                }
            }
        },
    }
}

/// After every capture the limit holds, whatever was pinned or unpinned before.
pub proof fn captures_enforce_the_limit(view: HistoryView, input: InputView, id: u128, now: UtcTime)
    requires
        view.wf(),
        view.inserting(input, id, now) is Ok,
    ensures
        ({
            let (next, clip) = view.inserting(input, id, now)->Ok_0;
            store::limit_of(view.limit) matches Ok(limit) && retention::unpinned(next.rows) <= limit
                && next.limit == view.limit && next.wf()
        }),
{
    lemma_captured(view, input, id, now);
    let (rows, row) = captured(view, input, id, now);
    let limit = store::limit_of(view.limit)->Ok_0;
    pruning_keeps_the_limit(rows, limit as nat);
    pruning_adds_nothing(rows, limit as nat);
}

/// After every change of the limit it holds, and it is what is read.
pub proof fn limit_changes_enforce_the_limit(view: HistoryView, limit: usize)
    requires
        view.wf(),
        view.limiting(limit) is Ok,
    ensures
        ({
            let next = view.limiting(limit)->Ok_0;
            retention::unpinned(next.rows) <= limit && store::limit_of(next.limit) == Ok::<usize, StoreError>(
                limit,
            ) && next.wf()
        }),
{
    store::limits_are_read_back(limit);
    pruning_keeps_the_limit(view.rows, limit as nat);
    pruning_adds_nothing(view.rows, limit as nat);
}

/// A captured clip is stored, and it is what was returned.
pub proof fn captures_are_stored(view: HistoryView, input: InputView, id: u128, now: UtcTime)
    requires
        view.wf(),
        view.inserting(input, id, now) is Ok,
    ensures
        ({
            let (next, clip) = view.inserting(input, id, now)->Ok_0;
            exists|row: RowView| #[trigger]
                next.rows.contains(row) && row::decoded(row) == Ok::<ClipView, StoreError>(clip)
                    && row.content_sha256 == store::hash_of(input)
        }),
{
    lemma_captured(view, input, id, now);
    let (next, clip) = view.inserting(input, id, now)->Ok_0;
    let (rows, row) = captured(view, input, id, now);
    let limit = store::limit_of(view.limit)->Ok_0;
    retention::lemma_filter_members(rows, |r: RowView| retention::stays(rows, limit as nat, r));
    assert(next.rows.contains(row));
}

/// A row whose stamp follows those of all earlier moments is more recent than one that was used
/// earlier, and is listed before it where both are pinned or neither is.
pub proof fn rows_used_later_come_first(later: RowView, earlier: RowView, now: UtcTime)
    requires
        time::follows_earlier_stamps(later.last_used_at, now),
        time::is_earlier_stamp(earlier.last_used_at, now),
    ensures
        retention::more_recent(later, earlier),
        !retention::more_recent(earlier, later),
        later.pinned == earlier.pinned ==> history::listed_before(later, earlier)
            && !history::listed_before(earlier, later),
{
    order::texts_are_totally_ordered(
        earlier.last_used_at,
        later.last_used_at,
        earlier.last_used_at,
    );
}

/// A captured clip is listed before every clip that was used at an earlier moment, where both are
/// pinned or neither is.
pub proof fn captures_are_listed_before_earlier_clips(
    view: HistoryView,
    input: InputView,
    id: u128,
    now: UtcTime,
)
    requires
        view.wf(),
        view.inserting(input, id, now) is Ok,
        time::rfc3339(now.seconds, now.nanoseconds) matches Some(stamp)
            && time::follows_earlier_stamps(stamp, now),
    ensures
        ({
            let (next, clip) = view.inserting(input, id, now)->Ok_0;
            exists|row: RowView| #[trigger]
                next.rows.contains(row) && row::decoded(row) == Ok::<ClipView, StoreError>(clip)
                    && forall|other: RowView| #[trigger]
                    next.rows.contains(other) && other.pinned == row.pinned
                        && time::is_earlier_stamp(other.last_used_at, now)
                        ==> history::listed_before(row, other)
        }),
{
    lemma_captured(view, input, id, now);
    lemma_latest_in_range(view.rows, store::hash_of(input));
    let (next, clip) = view.inserting(input, id, now)->Ok_0;
    let (rows, row) = captured(view, input, id, now);
    let limit = store::limit_of(view.limit)->Ok_0;
    retention::lemma_filter_members(rows, |r: RowView| retention::stays(rows, limit as nat, r));
    assert(next.rows.contains(row));
    assert forall|other: RowView| #[trigger]
        next.rows.contains(other) && other.pinned == row.pinned && time::is_earlier_stamp(
            other.last_used_at,
            now,
        ) implies history::listed_before(row, other) by {
        rows_used_later_come_first(row, other, now);
    }
}

/// Whether writing what changed between two histories gives the rows of the second.
pub open spec fn is_written_by_changes(before: HistoryView, after: HistoryView) -> bool {
    let known = changes::stamps_of(before.rows);
    changes::rewritten(
        before.rows,
        changes::added_rows(known, after.rows),
        changes::used_rows(known, after.rows),
        changes::removed_ids(known, after.rows),
    ) == after.rows
}

/// After every capture it is enough to write what changed.
pub proof fn captures_are_written_by_changes(
    view: HistoryView,
    input: InputView,
    id: u128,
    now: UtcTime,
)
    requires
        view.wf(),
        view.inserting(input, id, now) is Ok,
    ensures
        is_written_by_changes(view, view.inserting(input, id, now)->Ok_0.0),
{
    lemma_captured(view, input, id, now);
    lemma_latest_in_range(view.rows, store::hash_of(input));
    let (rows, row) = captured(view, input, id, now);
    let limit = store::limit_of(view.limit)->Ok_0;
    changes::written_changes_give_the_rows(
        view.rows,
        rows,
        |r: RowView| retention::stays(rows, limit as nat, r),
    );
}

/// After every change of the limit it is enough to write what changed.
pub proof fn limit_changes_are_written_by_changes(view: HistoryView, limit: usize)
    requires
        view.wf(),
        view.limiting(limit) is Ok,
    ensures
        is_written_by_changes(view, view.limiting(limit)->Ok_0),
{
    changes::written_changes_give_the_rows(
        view.rows,
        view.rows,
        |r: RowView| retention::stays(view.rows, limit as nat, r),
    );
}

/// Pinned rows survive every capture: each is still there, but for the moment of its last use.
pub proof fn pinned_rows_survive_captures(
    view: HistoryView,
    input: InputView,
    id: u128,
    now: UtcTime,
    k: int,
)
    requires
        view.wf(),
        view.inserting(input, id, now) is Ok,
        0 <= k < view.rows.len(),
        view.rows[k].pinned,
    ensures
        ({
            let (next, clip) = view.inserting(input, id, now)->Ok_0;
            exists|row: RowView| #[trigger]
                next.rows.contains(row) && row == (RowView {
                    last_used_at: row.last_used_at,
                    ..view.rows[k]
                })
        }),
{
    lemma_captured(view, input, id, now);
    lemma_latest_in_range(view.rows, store::hash_of(input));
    let (next, clip) = view.inserting(input, id, now)->Ok_0;
    let (rows, row) = captured(view, input, id, now);
    let limit = store::limit_of(view.limit)->Ok_0;
    pruning_keeps_the_most_recent(rows, limit as nat, k, k);
    assert(next.rows.contains(rows[k]));
    assert(rows[k] == (RowView { last_used_at: rows[k].last_used_at, ..view.rows[k] }));
}

/// Pinned rows survive every change of the limit.
pub proof fn pinned_rows_survive_limit_changes(view: HistoryView, limit: usize, k: int)
    requires
        view.wf(),
        view.limiting(limit) is Ok,
        0 <= k < view.rows.len(),
        view.rows[k].pinned,
    ensures
        view.limiting(limit)->Ok_0.rows.contains(view.rows[k]),
{
    pruning_keeps_the_most_recent(view.rows, limit as nat, k, k);
}

/// Pinning touches one row and nothing else of it.
pub proof fn pinning_changes_one_flag(view: HistoryView, id: u128, pinned: bool, k: int)
    requires
        view.wf(),
        view.pinning(id, pinned) is Ok,
        0 <= k < view.rows.len(),
    ensures
        ({
            let next = view.pinning(id, pinned)->Ok_0;
            &&& next.wf()
            &&& next.limit == view.limit
            &&& next.rows.len() == view.rows.len()
            &&& next.rows[k] == (RowView { pinned: next.rows[k].pinned, ..view.rows[k] })
            &&& view.rows[k].id == codec::uuid_text(id) ==> next.rows[k].pinned == pinned
            &&& view.rows[k].id != codec::uuid_text(id) ==> next.rows[k] == view.rows[k]
        }),
{
    let next = view.pinning(id, pinned)->Ok_0;
    assert forall|a: int, b: int| 0 <= a < b < next.rows.len() implies #[trigger] next.rows[a].id
        != #[trigger] next.rows[b].id by {
        assert(view.rows[a].id != view.rows[b].id);
    }
}

// ---------------------------------------------------------------------------
// Equal captures
// ---------------------------------------------------------------------------

/// No two rows have the same hash.
pub open spec fn hashes_are_distinct(rows: Seq<RowView>) -> bool {
    forall|i: int, j: int|
        0 <= i < j < rows.len() ==> #[trigger] rows[i].content_sha256
            != #[trigger] rows[j].content_sha256
}

/// Of the rows with a hash, one was used last.
proof fn lemma_latest_exists(rows: Seq<RowView>, hash: Seq<char>, n: int) -> (k: int)
    requires
        0 <= n <= rows.len(),
        exists|i: int| 0 <= i < n && (#[trigger] rows[i]).content_sha256 == hash,
    ensures
        0 <= k < n,
        rows[k].content_sha256 == hash,
        forall|j: int|
            0 <= j < n && (#[trigger] rows[j]).content_sha256 == hash ==> !order::text_before(
                rows[k].last_used_at,
                rows[j].last_used_at,
            ) && (j < k ==> order::text_before(rows[j].last_used_at, rows[k].last_used_at)),
    decreases n,
{
    let last = rows[n - 1];
    order::texts_are_totally_ordered(last.last_used_at, last.last_used_at, last.last_used_at);
    if exists|i: int| 0 <= i < n - 1 && (#[trigger] rows[i]).content_sha256 == hash {
        let k = lemma_latest_exists(rows, hash, n - 1);
        if last.content_sha256 == hash && order::text_before(
            rows[k].last_used_at,
            last.last_used_at,
        ) {
            assert forall|j: int|
                0 <= j < n && (#[trigger] rows[j]).content_sha256 == hash implies !order::text_before(
                rows[n - 1].last_used_at,
                rows[j].last_used_at,
            ) && (j < n - 1 ==> order::text_before(
                rows[j].last_used_at,
                rows[n - 1].last_used_at,
            )) by {
                order::texts_are_totally_ordered(
                    rows[j].last_used_at,
                    rows[k].last_used_at,
                    last.last_used_at,
                );
                order::texts_are_totally_ordered(
                    last.last_used_at,
                    rows[j].last_used_at,
                    rows[k].last_used_at,
                );
            }
            n - 1
        } else {
            k
        }
    } else {
        n - 1
    }
}

/// A row with a hash is found.
proof fn lemma_latest_found(rows: Seq<RowView>, hash: Seq<char>, i: int)
    requires
        0 <= i < rows.len(),
        rows[i].content_sha256 == hash,
    ensures
        history::latest_match(rows, hash) matches Some(k) && 0 <= k < rows.len()
            && rows[k].content_sha256 == hash,
        hashes_are_distinct(rows) ==> history::latest_match(rows, hash) == Some(i),
{
    let k = lemma_latest_exists(rows, hash, rows.len() as int);
    assert(history::is_latest_match(rows, hash, k));
    lemma_latest_in_range(rows, hash);
    let m = history::latest_match(rows, hash)->Some_0;
    if hashes_are_distinct(rows) {
        if m < i {
            assert(rows[m].content_sha256 != rows[i].content_sha256);
        } else if i < m {
            assert(rows[i].content_sha256 != rows[m].content_sha256);
        }
    }
}

/// The history begins without equal clips, and no operation makes any.
pub proof fn clips_stay_distinct(
    view: HistoryView,
    input: InputView,
    id: u128,
    now: UtcTime,
    limit: usize,
    pinned: bool,
)
    requires
        view.wf(),
        hashes_are_distinct(view.rows),
    ensures
        hashes_are_distinct(HistoryView::initial().rows),
        view.inserting(input, id, now) matches Ok((next, clip)) ==> hashes_are_distinct(next.rows),
        view.limiting(limit) matches Ok(next) ==> hashes_are_distinct(next.rows),
        view.pinning(id, pinned) matches Ok(next) ==> hashes_are_distinct(next.rows),
{
    if view.inserting(input, id, now) is Ok {
        lemma_captured(view, input, id, now);
        let hash = store::hash_of(input);
        let (rows, row) = captured(view, input, id, now);
        lemma_latest_in_range(view.rows, hash);
        assert forall|a: int, b: int| 0 <= a < b < rows.len() implies #[trigger] rows[a].content_sha256
            != #[trigger] rows[b].content_sha256 by {
            match history::latest_match(view.rows, hash) {
                Some(i) => {
                    assert(view.rows[a].content_sha256 != view.rows[b].content_sha256);
                },
                None => {
                    if b == view.rows.len() {
                        if view.rows[a].content_sha256 == hash {
                            lemma_latest_found(view.rows, hash, a);
                        }
                    } else {
                        assert(view.rows[a].content_sha256 != view.rows[b].content_sha256);
                    }
                },
            }
        }
        lemma_pruned_hashes(rows, store::limit_of(view.limit)->Ok_0 as nat);
    }
    if view.limiting(limit) is Ok {
        lemma_pruned_hashes(view.rows, limit as nat);
    }
    if view.pinning(id, pinned) is Ok {
        let next = view.pinning(id, pinned)->Ok_0;
        assert forall|a: int, b: int| 0 <= a < b < next.rows.len() implies #[trigger] next.rows[a].content_sha256
            != #[trigger] next.rows[b].content_sha256 by {
            assert(view.rows[a].content_sha256 != view.rows[b].content_sha256);
        }
    }
}

proof fn lemma_pruned_hashes(rows: Seq<RowView>, limit: nat)
    requires
        hashes_are_distinct(rows),
        retention::ids_are_distinct(rows),
    ensures
        hashes_are_distinct(retention::pruned(rows, limit)),
{
    let kept = retention::pruned(rows, limit);
    retention::lemma_filter_members(rows, |r: RowView| retention::stays(rows, limit, r));
    assert forall|a: int, b: int| 0 <= a < b < kept.len() implies #[trigger] kept[a].content_sha256
        != #[trigger] kept[b].content_sha256 by {
        assert(kept.contains(kept[a]));
        assert(kept.contains(kept[b]));
        let i = choose|i: int| 0 <= i < rows.len() && rows[i] == kept[a];
        let j = choose|j: int| 0 <= j < rows.len() && rows[j] == kept[b];
        assert(kept[a].id != kept[b].id);
        if i < j {
            assert(rows[i].content_sha256 != rows[j].content_sha256);
        } else {
            assert(rows[j].content_sha256 != rows[i].content_sha256);
        }
    }
}

/// Capturing the same clip again uses it again: the history does not grow, and the clip keeps its
/// identifier and its content.
pub proof fn equal_captures_do_not_grow_the_history(
    view: HistoryView,
    input: InputView,
    first_id: u128,
    first_now: UtcTime,
    second_id: u128,
    second_now: UtcTime,
)
    requires
        view.wf(),
        hashes_are_distinct(view.rows),
        view.inserting(input, first_id, first_now) is Ok,
        view.inserting(input, first_id, first_now)->Ok_0.0.inserting(
            input,
            second_id,
            second_now,
        ) is Ok,
    ensures
        ({
            let (between, first) = view.inserting(input, first_id, first_now)->Ok_0;
            let (after, second) = between.inserting(input, second_id, second_now)->Ok_0;
            &&& after.rows.len() <= between.rows.len()
            &&& second == (ClipView { last_used_at: second.last_used_at, ..first })
            &&& row::time_of(
                time::rfc3339(second_now.seconds, second_now.nanoseconds)->Some_0,
            ) == Some(second.last_used_at)
        }),
{
    let (between, first) = view.inserting(input, first_id, first_now)->Ok_0;
    let hash = store::hash_of(input);
    captures_enforce_the_limit(view, input, first_id, first_now);
    captures_are_stored(view, input, first_id, first_now);
    clips_stay_distinct(view, input, first_id, first_now, 1, true);
    let stored = choose|row: RowView| #[trigger]
        between.rows.contains(row) && row::decoded(row) == Ok::<ClipView, StoreError>(first)
            && row.content_sha256 == hash;
    let k = choose|k: int| 0 <= k < between.rows.len() && between.rows[k] == stored;
    lemma_latest_found(between.rows, hash, k);
    lemma_captured(between, input, second_id, second_now);
    let (rows, row) = captured(between, input, second_id, second_now);
    pruning_adds_nothing(rows, store::limit_of(between.limit)->Ok_0 as nat);
}

// ---------------------------------------------------------------------------
// Reading
// ---------------------------------------------------------------------------

/// Every row can be read.
pub open spec fn is_readable(rows: Seq<RowView>) -> bool {
    forall|i: int| 0 <= i < rows.len() ==> row::decoded(#[trigger] rows[i]) is Ok
}

/// The history begins readable, and no operation makes it unreadable.
pub proof fn histories_stay_readable(
    view: HistoryView,
    input: InputView,
    id: u128,
    now: UtcTime,
    limit: usize,
    pinned: bool,
)
    requires
        view.wf(),
        is_readable(view.rows),
    ensures
        is_readable(HistoryView::initial().rows),
        view.inserting(input, id, now) matches Ok((next, clip)) ==> is_readable(next.rows),
        view.limiting(limit) matches Ok(next) ==> is_readable(next.rows),
        view.pinning(id, pinned) matches Ok(next) ==> is_readable(next.rows),
{
    if view.inserting(input, id, now) is Ok {
        lemma_captured(view, input, id, now);
        let (rows, row) = captured(view, input, id, now);
        lemma_latest_in_range(view.rows, store::hash_of(input));
        assert forall|i: int| 0 <= i < rows.len() implies row::decoded(#[trigger] rows[i]) is Ok by {
            if rows[i] != row {
                assert(rows[i] == view.rows[i]);
            }
        }
        lemma_pruned_readable(rows, store::limit_of(view.limit)->Ok_0 as nat);
    }
    if view.limiting(limit) is Ok {
        lemma_pruned_readable(view.rows, limit as nat);
    }
    if view.pinning(id, pinned) is Ok {
        let next = view.pinning(id, pinned)->Ok_0;
        assert forall|i: int| 0 <= i < next.rows.len() implies row::decoded(
            #[trigger] next.rows[i],
        ) is Ok by {
            assert(row::decoded(view.rows[i]) is Ok);
        }
    }
}

proof fn lemma_pruned_readable(rows: Seq<RowView>, limit: nat)
    requires
        is_readable(rows),
    ensures
        is_readable(retention::pruned(rows, limit)),
{
    let kept = retention::pruned(rows, limit);
    retention::lemma_filter_members(rows, |r: RowView| retention::stays(rows, limit, r));
    assert forall|i: int| 0 <= i < kept.len() implies row::decoded(#[trigger] kept[i]) is Ok by {
        assert(kept.contains(kept[i]));
        let j = choose|j: int| 0 <= j < rows.len() && rows[j] == kept[i];
        assert(row::decoded(rows[j]) is Ok);
    }
}

/// A readable history is listed without error.
pub proof fn readable_histories_are_listed(view: HistoryView, picks: Seq<usize>, limit: usize)
    requires
        is_readable(view.rows),
        view.is_listing(picks, limit),
    ensures
        history::decoded_all(history::rows_at(view.rows, picks)) is Ok,
{
    let rows = history::rows_at(view.rows, picks);
    assert forall|i: int| 0 <= i < rows.len() implies row::decoded(#[trigger] rows[i]) is Ok by {
        assert(picks[i] < view.rows.len());
        assert(row::decoded(view.rows[picks[i] as int]) is Ok);
    }
    lemma_all_decoded(rows);
}

proof fn lemma_all_decoded(rows: Seq<RowView>)
    requires
        is_readable(rows),
    ensures
        history::decoded_all(rows) is Ok,
    decreases rows.len(),
{
    if rows.len() > 0 {
        let rest = rows.drop_last();
        assert forall|i: int| 0 <= i < rest.len() implies row::decoded(#[trigger] rest[i]) is Ok by {
            assert(rest[i] == rows[i]);
        }
        lemma_all_decoded(rest);
        assert(row::decoded(rows[rows.len() - 1]) is Ok);
    }
}

/// A list with room for every clip contains every clip.
pub proof fn roomy_lists_are_complete(view: HistoryView, picks: Seq<usize>, limit: usize, k: int)
    requires
        view.is_listing(picks, limit),
        view.rows.len() <= limit <= store::MAX_HISTORY_LIMIT,
        0 <= k < view.rows.len(),
    ensures
        history::rows_at(view.rows, picks).contains(view.rows[k]),
{
    order::roomy_pages_are_complete(
        picks,
        view.rows.len(),
        history::clamped(limit as nat, 1, store::MAX_HISTORY_LIMIT as nat),
        |i: int, j: int| history::listed_before(view.rows[i], view.rows[j]),
        k,
    );
    let a = choose|a: int| 0 <= a < picks.len() && picks[a] == k as usize;
    assert(history::rows_at(view.rows, picks)[a] == view.rows[k]);
}

/// There is one list: the order leaves nothing open.
pub proof fn lists_are_unique(view: HistoryView, a: Seq<usize>, b: Seq<usize>, limit: usize)
    requires
        view.wf(),
        view.rows.len() <= usize::MAX,
        view.is_listing(a, limit),
        view.is_listing(b, limit),
    ensures
        a == b,
{
    let rows = view.rows;
    let before = |i: int, j: int| history::listed_before(rows[i], rows[j]);
    assert forall|i: int, j: int| 0 <= i < rows.len() && 0 <= j < rows.len() && i != j implies (
    #[trigger] before(i, j)) || before(j, i) by {
        if i < j {
            assert(rows[i].id != rows[j].id);
        } else {
            assert(rows[j].id != rows[i].id);
        }
        order::texts_are_totally_ordered(
            rows[i].last_used_at,
            rows[j].last_used_at,
            rows[i].last_used_at,
        );
        order::texts_are_totally_ordered(rows[i].id, rows[j].id, rows[i].id);
    }
    assert forall|i: int, j: int| 0 <= i < rows.len() && 0 <= j < rows.len() implies !(
    #[trigger] before(i, j) && before(j, i)) by {
        order::texts_are_totally_ordered(
            rows[i].last_used_at,
            rows[j].last_used_at,
            rows[i].last_used_at,
        );
        order::texts_are_totally_ordered(rows[i].id, rows[j].id, rows[i].id);
    }
    order::pages_are_unique(
        a,
        b,
        rows.len(),
        history::clamped(limit as nat, 1, store::MAX_HISTORY_LIMIT as nat),
        before,
    );
}

// ---------------------------------------------------------------------------
// Content
// ---------------------------------------------------------------------------

/// Whether two captures are the same, where an empty HTML counts as none.
pub open spec fn same_content(a: InputView, b: InputView) -> bool {
    match (a, b) {
        (InputView::Text { text: s, html: g }, InputView::Text { text: t, html: h }) => {
            &&& s == t
            &&& vstd::utf8::encode_utf8(g.unwrap_or(seq![])) == vstd::utf8::encode_utf8(
                h.unwrap_or(seq![]),
            )
        },
        (InputView::ImagePng { bytes: s }, InputView::ImagePng { bytes: t }) => s == t,
        (InputView::Files { uris: s }, InputView::Files { uris: t }) => s == t,
        _ => false,
    }
}

/// Whether no text in a capture contains a zero character.
pub open spec fn has_no_zero(input: InputView) -> bool {
    match input {
        InputView::Text { text, .. } => !text.contains('\0'),
        InputView::ImagePng { .. } => true,
        InputView::Files { uris } => forall|i: int|
            0 <= i < uris.len() ==> !(#[trigger] uris[i]).contains('\0'),
    }
}

/// Without zero characters, the encoding has no zero byte.
proof fn lemma_no_zero_byte(s: Seq<char>)
    requires
        !s.contains('\0'),
    ensures
        forall|i: int|
            0 <= i < vstd::utf8::encode_utf8(s).len() ==> #[trigger] vstd::utf8::encode_utf8(s)[i]
                != 0,
    decreases s.len(),
{
    if s.len() > 0 {
        let rest = s.drop_first();
        assert(s.contains(s[0]));
        assert(!rest.contains('\0')) by {
            if rest.contains('\0') {
                let i = choose|i: int| 0 <= i < rest.len() && rest[i] == '\0';
                assert(s[i + 1] == '\0');
                assert(s.contains('\0'));
            }
        }
        lemma_no_zero_byte(rest);
        lemma_scalar_not_zero(s[0]);
        let head = vstd::utf8::encode_scalar(s[0] as u32);
        assert(vstd::utf8::encode_utf8(s) =~= head + vstd::utf8::encode_utf8(rest));
    }
}

proof fn lemma_scalar_not_zero(c: char)
    requires
        c != '\0',
    ensures
        forall|i: int|
            0 <= i < vstd::utf8::encode_scalar(c as u32).len() ==> #[trigger] vstd::utf8::encode_scalar(
                c as u32,
            )[i] != 0,
{
    let v = c as u32;
    assert(v != 0);
    assert(0 < v < 0x80 ==> (v & 0x7F) as u8 != 0) by (bit_vector);
    assert(0xC0u8 | ((v >> 6) & 0x1F) as u8 != 0u8) by (bit_vector);
    assert(0xE0u8 | ((v >> 12) & 0x0F) as u8 != 0u8) by (bit_vector);
    assert(0xF0u8 | ((v >> 18) & 0x07) as u8 != 0u8) by (bit_vector);
    assert(0x80u8 | (v & 0x3F) as u8 != 0u8) by (bit_vector);
    assert(0x80u8 | ((v >> 6) & 0x3F) as u8 != 0u8) by (bit_vector);
    assert(0x80u8 | ((v >> 12) & 0x3F) as u8 != 0u8) by (bit_vector);
}

/// Where a zero byte ends a beginning without any, equal wholes have equal beginnings.
proof fn lemma_zero_ends(a: Seq<u8>, b: Seq<u8>, p: Seq<u8>, q: Seq<u8>)
    requires
        forall|i: int| 0 <= i < a.len() ==> #[trigger] a[i] != 0,
        forall|i: int| 0 <= i < b.len() ==> #[trigger] b[i] != 0,
        a + seq![0u8] + p == b + seq![0u8] + q,
    ensures
        a == b,
        p == q,
{
    let x = a + seq![0u8] + p;
    let y = b + seq![0u8] + q;
    assert(x[a.len() as int] == 0);
    assert(y[b.len() as int] == 0);
    if a.len() < b.len() {
        assert(y[a.len() as int] == b[a.len() as int]);
    } else if b.len() < a.len() {
        assert(x[b.len() as int] == a[b.len() as int]);
    }
    assert(a =~= x.take(a.len() as int));
    assert(b =~= y.take(a.len() as int));
    assert(p =~= x.skip(a.len() as int + 1));
    assert(q =~= y.skip(a.len() as int + 1));
}

proof fn lemma_terminated(a: Seq<Seq<char>>, b: Seq<Seq<char>>)
    requires
        forall|i: int| 0 <= i < a.len() ==> !(#[trigger] a[i]).contains('\0'),
        forall|i: int| 0 <= i < b.len() ==> !(#[trigger] b[i]).contains('\0'),
        store::terminated(a) == store::terminated(b),
    ensures
        a == b,
    decreases a.len(),
{
    if a.len() == 0 && b.len() == 0 {
        assert(a =~= b);
    } else if a.len() == 0 || b.len() == 0 {
        assert(store::terminated(a).len() == store::terminated(b).len());
    } else {
        let ra = a.drop_last();
        let rb = b.drop_last();
        let ea = vstd::utf8::encode_utf8(a.last());
        let eb = vstd::utf8::encode_utf8(b.last());
        lemma_no_zero_byte(a.last());
        lemma_no_zero_byte(b.last());
        assert forall|i: int| 0 <= i < ra.len() implies !(#[trigger] ra[i]).contains('\0') by {
            assert(ra[i] == a[i]);
        }
        assert forall|i: int| 0 <= i < rb.len() implies !(#[trigger] rb[i]).contains('\0') by {
            assert(rb[i] == b[i]);
        }
        let ta = store::terminated(ra);
        let tb = store::terminated(rb);
        let x = store::terminated(a);
        let y = store::terminated(b);
        assert(x == ta + ea + seq![0u8]);
        assert(y == tb + eb + seq![0u8]);
        lemma_ends_with_zero(ra);
        lemma_ends_with_zero(rb);
        let n = x.len() as int;
        // The last text reaches back to the zero byte before it, or to the beginning.
        if ea.len() < eb.len() {
            let k = n - 2 - ea.len();
            assert(y[k] == eb[eb.len() - 1 - ea.len()]);
            if ta.len() > 0 {
                assert(x[k] == ta.last());
            } else {
                assert(k < 0);
            }
        } else if eb.len() < ea.len() {
            let k = n - 2 - eb.len();
            assert(x[k] == ea[ea.len() - 1 - eb.len()]);
            if tb.len() > 0 {
                assert(y[k] == tb.last());
            } else {
                assert(k < 0);
            }
        }
        assert(ea.len() == eb.len());
        assert(ta.len() == tb.len());
        assert(ta =~= x.take(ta.len() as int));
        assert(tb =~= y.take(ta.len() as int));
        assert(ea =~= x.subrange(ta.len() as int, n - 1));
        assert(eb =~= y.subrange(ta.len() as int, n - 1));
        text::encoding_determines_text(a.last(), b.last());
        lemma_terminated(ra, rb);
        assert(a =~= ra.push(a.last()));
        assert(b =~= rb.push(b.last()));
    }
}

proof fn lemma_ends_with_zero(list: Seq<Seq<char>>)
    ensures
        store::terminated(list).len() > 0 ==> store::terminated(list).last() == 0,
        list.len() > 0 ==> store::terminated(list).len() > 0,
{
}

/// Captures of different content have different content bytes, where no text contains a zero
/// character.
pub proof fn content_is_unambiguous(a: InputView, b: InputView)
    requires
        has_no_zero(a),
        has_no_zero(b),
        store::content_bytes(a) == store::content_bytes(b),
    ensures
        same_content(a, b),
{
    let ka = vstd::utf8::encode_utf8(a.kind().name()@);
    let kb = vstd::utf8::encode_utf8(b.kind().name()@);
    lemma_kind_without_zero(a.kind());
    lemma_kind_without_zero(b.kind());
    let pa = store::content_bytes(a).skip(ka.len() as int + 1);
    let pb = store::content_bytes(b).skip(kb.len() as int + 1);
    assert(store::content_bytes(a) =~= ka + seq![0u8] + pa);
    assert(store::content_bytes(b) =~= kb + seq![0u8] + pb);
    lemma_zero_ends(ka, kb, pa, pb);
    text::encoding_determines_text(a.kind().name()@, b.kind().name()@);
    model::kind_names_are_read_back(a.kind(), b.kind().name()@);
    model::kind_names_are_read_back(b.kind(), b.kind().name()@);
    match (a, b) {
        (InputView::Text { text: s, html: g }, InputView::Text { text: t, html: h }) => {
            let eg = vstd::utf8::encode_utf8(g.unwrap_or(seq![]));
            let eh = vstd::utf8::encode_utf8(h.unwrap_or(seq![]));
            assert(vstd::utf8::encode_utf8(Seq::<char>::empty()) =~= Seq::<u8>::empty());
            lemma_no_zero_byte(s);
            lemma_no_zero_byte(t);
            assert(pa =~= vstd::utf8::encode_utf8(s) + seq![0u8] + eg);
            assert(pb =~= vstd::utf8::encode_utf8(t) + seq![0u8] + eh);
            lemma_zero_ends(vstd::utf8::encode_utf8(s), vstd::utf8::encode_utf8(t), eg, eh);
            text::encoding_determines_text(s, t);
        },
        (InputView::ImagePng { bytes: s }, InputView::ImagePng { bytes: t }) => {
            assert(pa =~= s);
            assert(pb =~= t);
        },
        (InputView::Files { uris: s }, InputView::Files { uris: t }) => {
            assert(pa =~= store::terminated(s));
            assert(pb =~= store::terminated(t));
            lemma_terminated(s, t);
        },
        _ => {},
    }
}

proof fn lemma_kind_without_zero(kind: model::ClipKind)
    ensures
        forall|i: int|
            0 <= i < vstd::utf8::encode_utf8(kind.name()@).len()
                ==> #[trigger] vstd::utf8::encode_utf8(kind.name()@)[i] != 0,
{
    reveal_strlit("text");
    reveal_strlit("image");
    reveal_strlit("files");
    assert(!kind.name()@.contains('\0'));
    lemma_no_zero_byte(kind.name()@);
}

} // verus!
