//! What limits do: which of them are accepted, and which rows stay.

use crate::order;
use crate::store::history::HistoryView;
use crate::store::laws;
use crate::store::retention;
use crate::store::row::RowView;
use crate::store::{self, StoreError};
use crate::text;
use vstd::prelude::*;

verus! {

// ---------------------------------------------------------------------------
// Numbers
// ---------------------------------------------------------------------------

/// The value of digits is that of the first ones, as many tens higher as others follow, and that of
/// the others. One digit counts what it says.
pub proof fn digits_count_by_their_place(a: Seq<char>, b: Seq<char>)
    ensures
        a.len() == 0 ==> store::digits_value(a) == 0,
        a.len() == 1 && '0' <= a[0] <= '9' ==> store::digits_value(a) == a[0] as int - '0' as int,
        store::digits_value(a + b) == store::digits_value(a) * vstd::arithmetic::power::pow(10, b.len())
            + store::digits_value(b),
    decreases b.len(),
{
    if a.len() == 1 {
        assert(a.drop_last() =~= Seq::empty());
        assert(store::digits_value(a.drop_last()) == 0);
    }
    if b.len() == 0 {
        assert(a + b =~= a);
        vstd::arithmetic::power::lemma_pow0(10);
    } else {
        let rest = b.drop_last();
        let all = a + b;
        assert(all.drop_last() =~= a + rest);
        assert(all.last() == b.last());
        digits_count_by_their_place(a, rest);
        vstd::arithmetic::power::lemma_pow_adds(10, rest.len(), 1);
        vstd::arithmetic::power::lemma_pow1(10);
        let x = store::digits_value(a) as int;
        let y = vstd::arithmetic::power::pow(10, rest.len());
        assert(x * y * 10 == x * (y * 10)) by (nonlinear_arith);
    }
}

/// A text is a limit exactly where it has digits only, with or without a plus sign before them, and
/// they stand for a number between 1 and 100 000; then this number is the limit. Digits that stand
/// for another number that fits in a machine word are out of range, and everything else is no
/// number.
pub proof fn limits_are_numbers_in_range(raw: Seq<char>, digits: Seq<char>)
    requires
        raw == seq!['+'] + digits || (raw == digits && !(digits.len() > 0 && digits[0] == '+')),
    ensures
        ({
            let numeric = digits.len() > 0 && (forall|i: int|
                0 <= i < digits.len() ==> '0' <= #[trigger] digits[i] <= '9')
                && store::digits_value(digits) <= usize::MAX;
            let n = store::digits_value(digits);
            &&& !numeric ==> store::limit_of(raw) == Err::<usize, StoreError>(
                StoreError::LimitNotNumeric,
            )
            &&& numeric && 1 <= n <= 100_000 ==> store::limit_of(raw) == Ok::<usize, StoreError>(
                n as usize,
            )
            &&& numeric && !(1 <= n <= 100_000) ==> store::limit_of(raw) == Err::<usize, StoreError>(
                StoreError::LimitOutOfRange,
            )
        }),
{
    if raw.len() > 0 && raw[0] == '+' {
        assert(raw.drop_first() =~= digits);
    }
    assert(store::unsigned_part(raw) == digits);
}

/// A new history keeps 500 clips, and has none.
pub proof fn new_histories_are_empty()
    ensures
        store::limit_of(HistoryView::initial().limit) == Ok::<usize, StoreError>(500),
        HistoryView::initial().rows.len() == 0,
        HistoryView::initial().wf(),
{
    store::limits_are_read_back(500);
}

// ---------------------------------------------------------------------------
// Retention
// ---------------------------------------------------------------------------

/// Counting rows is filtering them.
pub proof fn lemma_count_filters(rows: Seq<RowView>, condition: spec_fn(RowView) -> bool)
    ensures
        retention::count_where(rows, condition) == rows.filter(condition).len(),
    decreases rows.len(),
{
    reveal_with_fuel(Seq::filter, 2);
    if rows.len() > 0 {
        lemma_count_filters(rows.drop_last(), condition);
    }
}

proof fn lemma_filter_alike(
    rows: Seq<RowView>,
    p: spec_fn(RowView) -> bool,
    q: spec_fn(RowView) -> bool,
)
    requires
        forall|i: int| 0 <= i < rows.len() ==> p(#[trigger] rows[i]) == q(rows[i]),
    ensures
        rows.filter(p) == rows.filter(q),
    decreases rows.len(),
{
    reveal_with_fuel(Seq::filter, 2);
    if rows.len() > 0 {
        let rest = rows.drop_last();
        assert forall|i: int| 0 <= i < rest.len() implies p(#[trigger] rest[i]) == q(rest[i]) by {
            assert(rest[i] == rows[i]);
        }
        lemma_filter_alike(rest, p, q);
        assert(p(rows[rows.len() - 1]) == q(rows[rows.len() - 1]));
    }
}

/// Filtering twice keeps what both conditions allow.
proof fn lemma_filter_twice(
    rows: Seq<RowView>,
    p: spec_fn(RowView) -> bool,
    q: spec_fn(RowView) -> bool,
)
    requires
        forall|r: RowView| q(r) ==> #[trigger] p(r),
    ensures
        rows.filter(p).filter(q) == rows.filter(q),
    decreases rows.len(),
{
    reveal_with_fuel(Seq::filter, 2);
    if rows.len() > 0 {
        let rest = rows.drop_last();
        lemma_filter_twice(rest, p, q);
        let last = rows.last();
        assert(q(last) ==> p(last));
        if p(last) {
            let kept = rest.filter(p);
            assert(kept.push(last).drop_last() =~= kept);
        }
    }
}

/// Which rows stay. They are rows that were there, in the same order, and all that were pinned. Of
/// the unpinned ones exactly as many stay as the limit says, or all where they are no more; and each
/// of them was used after every one that goes, or at the same moment and has the later identifier.
pub proof fn limits_leave_the_most_recent_rows(rows: Seq<RowView>, limit: nat)
    requires
        forall|i: int, j: int| 0 <= i < j < rows.len() ==> #[trigger] rows[i].id != #[trigger] rows[j].id,
    ensures
        ({
            let kept = retention::pruned(rows, limit);
            let n = rows.filter(|r: RowView| !r.pinned).len();
            &&& kept == rows.filter(|r: RowView| kept.contains(r))
            &&& kept.filter(|r: RowView| r.pinned) == rows.filter(|r: RowView| r.pinned)
            &&& n <= limit ==> kept == rows
            &&& kept.filter(|r: RowView| !r.pinned).len() == (if n <= limit {
                n
            } else {
                limit
            })
            &&& forall|a: RowView, b: RowView|
                #![trigger kept.contains(a), rows.contains(b)]
                kept.contains(a) && !a.pinned && rows.contains(b) && !kept.contains(b) ==> !b.pinned
                    && (order::text_before(b.last_used_at, a.last_used_at) || (b.last_used_at
                    == a.last_used_at && order::text_before(b.id, a.id)))
        }),
{
    let kept = retention::pruned(rows, limit);
    let p = |r: RowView| retention::stays(rows, limit, r);
    let inside = |r: RowView| kept.contains(r);
    let free = |r: RowView| !r.pinned;
    let fixed = |r: RowView| r.pinned;
    assert(retention::ids_are_distinct(rows));
    retention::lemma_filter_members(rows, p);
    assert forall|i: int| 0 <= i < rows.len() implies p(#[trigger] rows[i]) == inside(rows[i]) by {
        assert(rows.contains(rows[i]));
    }
    lemma_filter_alike(rows, p, inside);
    lemma_filter_twice(rows, p, fixed);
    lemma_count_filters(rows, free);
    lemma_count_filters(kept, free);
    laws::pruning_keeps_the_limit(rows, limit);
    if retention::unpinned(rows) <= limit {
        retention::lemma_pruned_within_limit(rows, limit);
    }
    assert forall|a: RowView, b: RowView|
        #![trigger kept.contains(a), rows.contains(b)]
        kept.contains(a) && !a.pinned && rows.contains(b) && !kept.contains(b) implies !b.pinned && (
    order::text_before(b.last_used_at, a.last_used_at) || (b.last_used_at == a.last_used_at
        && order::text_before(b.id, a.id))) by {
        assert(rows.contains(a));
        let i = choose|i: int| 0 <= i < rows.len() && rows[i] == a;
        let j = choose|j: int| 0 <= j < rows.len() && rows[j] == b;
        laws::pruning_keeps_the_most_recent(rows, limit, i, j);
        laws::pruning_keeps_the_most_recent(rows, limit, j, i);
    }
}

/// Setting a limit succeeds exactly for the limits from 1 to 100 000. Then it is the limit that is
/// read. Nothing is dropped where it holds already; otherwise exactly as many unpinned clips stay as
/// the limit says. Pinned clips stay, the order stays, and what is dropped was used before what stays.
pub proof fn limits_are_set(view: HistoryView, limit: usize)
    requires
        view.wf(),
    ensures
        !(1 <= limit <= 100_000) ==> view.limiting(limit) == Err::<HistoryView, StoreError>(
            StoreError::LimitOutOfRange,
        ),
        1 <= limit <= 100_000 ==> view.limiting(limit) is Ok,
        view.limiting(limit) matches Ok(next) ==> {
            let n = view.rows.filter(|r: RowView| !r.pinned).len();
            &&& store::limit_of(next.limit) == Ok::<usize, StoreError>(limit)
            &&& next.rows == view.rows.filter(|r: RowView| next.rows.contains(r))
            &&& next.rows.filter(|r: RowView| r.pinned) == view.rows.filter(|r: RowView| r.pinned)
            &&& n <= limit ==> next.rows == view.rows
            &&& next.rows.filter(|r: RowView| !r.pinned).len() == (if n <= limit {
                n
            } else {
                limit as nat
            })
            &&& forall|a: RowView, b: RowView|
                #![trigger next.rows.contains(a), view.rows.contains(b)]
                next.rows.contains(a) && !a.pinned && view.rows.contains(b) && !next.rows.contains(b)
                    ==> !b.pinned && (order::text_before(b.last_used_at, a.last_used_at) || (
                b.last_used_at == a.last_used_at && order::text_before(b.id, a.id)))
        },
{
    if store::is_history_limit(limit as int) {
        store::limits_are_read_back(limit);
        limits_leave_the_most_recent_rows(view.rows, limit as nat);
    }
}

/// Setting a limit and then a smaller one leaves what the smaller one leaves, and setting one twice
/// changes nothing the second time.
pub proof fn smaller_limits_win(rows: Seq<RowView>, large: nat, small: nat)
    requires
        forall|i: int, j: int| 0 <= i < j < rows.len() ==> #[trigger] rows[i].id != #[trigger] rows[j].id,
        small <= large,
    ensures
        retention::pruned(retention::pruned(rows, large), small) == retention::pruned(rows, small),
    decreases rows.len(),
{
    if retention::unpinned(rows) <= large {
        retention::lemma_pruned_within_limit(rows, large);
    } else {
        if forall|i: int| 0 <= i < rows.len() ==> (#[trigger] rows[i]).pinned {
            retention::lemma_count_bounds(rows, |r: RowView| !r.pinned);
        }
        let m = laws::lemma_oldest_exists(rows, rows.len() as int);
        retention::lemma_pruned_without_oldest(rows, large, m);
        retention::lemma_pruned_without_oldest(rows, small, m);
        let rest = rows.remove(m);
        assert forall|i: int, j: int| 0 <= i < j < rest.len() implies #[trigger] rest[i].id
            != #[trigger] rest[j].id by {
            let a = if i < m {
                i
            } else {
                i + 1
            };
            let b = if j < m {
                j
            } else {
                j + 1
            };
            assert(rest[i] == rows[a] && rest[j] == rows[b]);
        }
        smaller_limits_win(rest, large, small);
    }
}

/// Histories are right exactly where no two rows have the same identifier.
pub proof fn histories_are_right_where_identifiers_differ(view: HistoryView)
    ensures
        view.wf() <==> forall|i: int, j: int|
            0 <= i < view.rows.len() && 0 <= j < view.rows.len() && i != j ==> #[trigger] view.rows[i].id
                != #[trigger] view.rows[j].id,
        retention::unpinned(view.rows) == view.rows.filter(|r: RowView| !r.pinned).len(),
{
    lemma_count_filters(view.rows, |r: RowView| !r.pinned);
    if view.wf() {
        assert forall|i: int, j: int|
            0 <= i < view.rows.len() && 0 <= j < view.rows.len() && i != j implies #[trigger] view.rows[i].id
            != #[trigger] view.rows[j].id by {
            if i < j {
                assert(view.rows[i].id != view.rows[j].id);
            } else {
                assert(view.rows[j].id != view.rows[i].id);
            }
        }
    }
}

/// A row stays exactly where it is pinned, or fewer unpinned rows than the limit says were used after
/// it, or at the same moment with a later identifier.
pub proof fn rows_stay_among_the_most_recent(rows: Seq<RowView>, limit: nat, row: RowView)
    ensures
        retention::stays(rows, limit, row) <==> row.pinned || rows.filter(
            |r: RowView|
                !r.pinned && (order::text_before(row.last_used_at, r.last_used_at) || (row.last_used_at
                    == r.last_used_at && order::text_before(row.id, r.id))),
        ).len() < limit,
{
    let newer = |r: RowView| !r.pinned && retention::more_recent(r, row);
    let later = |r: RowView|
        !r.pinned && (order::text_before(row.last_used_at, r.last_used_at) || (row.last_used_at
            == r.last_used_at && order::text_before(row.id, r.id)));
    assert(newer =~= later);
    lemma_count_filters(rows, newer);
}

} // verus!
