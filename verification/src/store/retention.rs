//! Retention: which rows stay when the history has to shrink.

use crate::order;
use crate::store::row::{self, ClipRow, RowView};
use crate::store::{self, StoreError};
use vstd::prelude::*;

verus! {

/// Whether a row was used more recently than another. Of rows that were used at the same time, the
/// one with the later identifier counts as more recent.
pub open spec fn more_recent(a: RowView, b: RowView) -> bool {
    order::text_before(b.last_used_at, a.last_used_at) || (a.last_used_at == b.last_used_at
        && order::text_before(b.id, a.id))
}

/// How many rows meet a condition.
pub open spec fn count_where(rows: Seq<RowView>, condition: spec_fn(RowView) -> bool) -> nat
    decreases rows.len(),
{
    if rows.len() == 0 {
        0
    } else {
        count_where(rows.drop_last(), condition) + (if condition(rows.last()) {
            1nat
        } else {
            0nat
        })
    }
}

/// How many unpinned rows there are.
pub open spec fn unpinned(rows: Seq<RowView>) -> nat {
    count_where(rows, |r: RowView| !r.pinned)
}

/// How many unpinned rows were used more recently than a row.
pub open spec fn newer(rows: Seq<RowView>, row: RowView) -> nat {
    count_where(rows, |r: RowView| !r.pinned && more_recent(r, row))
}

/// Whether a row stays: it is pinned, or fewer unpinned rows than the limit allows are more recent.
pub open spec fn stays(rows: Seq<RowView>, limit: nat, row: RowView) -> bool {
    row.pinned || newer(rows, row) < limit
}

/// The rows that stay, in the order in which they stand.
pub open spec fn pruned(rows: Seq<RowView>, limit: nat) -> Seq<RowView> {
    rows.filter(|r: RowView| stays(rows, limit, r))
}

/// No two rows have the same identifier.
pub open spec fn ids_are_distinct(rows: Seq<RowView>) -> bool {
    forall|i: int, j: int|
        0 <= i < j < rows.len() ==> #[trigger] rows[i].id != #[trigger] rows[j].id
}

/// Being more recent is a total order on rows with different identifiers.
pub proof fn recency_is_an_order(a: RowView, b: RowView, c: RowView)
    ensures
        !more_recent(a, a),
        more_recent(a, b) && more_recent(b, c) ==> more_recent(a, c),
        a.id != b.id ==> more_recent(a, b) || more_recent(b, a),
        !(more_recent(a, b) && more_recent(b, a)),
{
    order::texts_are_totally_ordered(a.last_used_at, b.last_used_at, c.last_used_at);
    order::texts_are_totally_ordered(c.last_used_at, b.last_used_at, a.last_used_at);
    order::texts_are_totally_ordered(a.id, b.id, c.id);
    order::texts_are_totally_ordered(c.id, b.id, a.id);
}

// ---------------------------------------------------------------------------
// Counting
// ---------------------------------------------------------------------------

pub proof fn lemma_count_bounds(rows: Seq<RowView>, condition: spec_fn(RowView) -> bool)
    ensures
        count_where(rows, condition) <= rows.len(),
        (forall|i: int| 0 <= i < rows.len() ==> !condition(#[trigger] rows[i])) ==> count_where(
            rows,
            condition,
        ) == 0,
    decreases rows.len(),
{
    if rows.len() > 0 {
        let rest = rows.drop_last();
        lemma_count_bounds(rest, condition);
        if forall|i: int| 0 <= i < rows.len() ==> !condition(#[trigger] rows[i]) {
            assert forall|i: int| 0 <= i < rest.len() implies !condition(#[trigger] rest[i]) by {
                assert(rest[i] == rows[i]);
            }
            assert(!condition(rows[rows.len() - 1]));
        }
    }
}

pub proof fn lemma_count_remove(rows: Seq<RowView>, condition: spec_fn(RowView) -> bool, i: int)
    requires
        0 <= i < rows.len(),
    ensures
        count_where(rows, condition) == count_where(rows.remove(i), condition) + (if condition(
            rows[i],
        ) {
            1nat
        } else {
            0nat
        }),
    decreases rows.len(),
{
    if i == rows.len() - 1 {
        assert(rows.remove(i) =~= rows.drop_last());
    } else {
        let rest = rows.drop_last();
        lemma_count_remove(rest, condition, i);
        assert(rows.remove(i).drop_last() =~= rest.remove(i));
        assert(rows.remove(i).last() == rows.last());
    }
}

pub proof fn lemma_count_same(
    rows: Seq<RowView>,
    p: spec_fn(RowView) -> bool,
    q: spec_fn(RowView) -> bool,
)
    requires
        forall|i: int| 0 <= i < rows.len() ==> p(#[trigger] rows[i]) == q(rows[i]),
    ensures
        count_where(rows, p) == count_where(rows, q),
    decreases rows.len(),
{
    if rows.len() > 0 {
        let rest = rows.drop_last();
        assert forall|i: int| 0 <= i < rest.len() implies p(#[trigger] rest[i]) == q(rest[i]) by {
            assert(rest[i] == rows[i]);
        }
        lemma_count_same(rest, p, q);
        assert(p(rows[rows.len() - 1]) == q(rows[rows.len() - 1]));
    }
}

proof fn lemma_filter_remove(rows: Seq<RowView>, condition: spec_fn(RowView) -> bool, i: int)
    requires
        0 <= i < rows.len(),
        !condition(rows[i]),
    ensures
        rows.filter(condition) == rows.remove(i).filter(condition),
    decreases rows.len(),
{
    reveal_with_fuel(Seq::filter, 2);
    if i == rows.len() - 1 {
        assert(rows.remove(i) =~= rows.drop_last());
    } else {
        let rest = rows.drop_last();
        lemma_filter_remove(rest, condition, i);
        assert(rows.remove(i).drop_last() =~= rest.remove(i));
        assert(rows.remove(i).last() == rows.last());
    }
}

proof fn lemma_filter_same(
    rows: Seq<RowView>,
    p: spec_fn(RowView) -> bool,
    q: spec_fn(RowView) -> bool,
)
    requires
        forall|i: int| 0 <= i < rows.len() ==> p(#[trigger] rows[i]) == q(rows[i]),
    ensures
        rows.filter(p) == rows.filter(q),
    decreases rows.len(),
{
    reveal_with_fuel(Seq::filter, 2);
    if rows.len() > 0 {
        let rest = rows.drop_last();
        assert forall|i: int| 0 <= i < rest.len() implies p(#[trigger] rest[i]) == q(rest[i]) by {
            assert(rest[i] == rows[i]);
        }
        lemma_filter_same(rest, p, q);
        assert(p(rows[rows.len() - 1]) == q(rows[rows.len() - 1]));
    }
}

pub proof fn lemma_filter_all(rows: Seq<RowView>, p: spec_fn(RowView) -> bool)
    requires
        forall|i: int| 0 <= i < rows.len() ==> p(#[trigger] rows[i]),
    ensures
        rows.filter(p) == rows,
    decreases rows.len(),
{
    reveal_with_fuel(Seq::filter, 2);
    if rows.len() > 0 {
        let rest = rows.drop_last();
        assert forall|i: int| 0 <= i < rest.len() implies p(#[trigger] rest[i]) by {
            assert(rest[i] == rows[i]);
        }
        lemma_filter_all(rest, p);
        assert(p(rows[rows.len() - 1]));
        assert(rest.push(rows.last()) =~= rows);
    }
}

/// What a filter keeps.
pub proof fn lemma_filter_members(rows: Seq<RowView>, p: spec_fn(RowView) -> bool)
    ensures
        forall|r: RowView| #[trigger]
            rows.filter(p).contains(r) <==> rows.contains(r) && p(r),
        rows.filter(p).len() <= rows.len(),
        ids_are_distinct(rows) ==> ids_are_distinct(rows.filter(p)),
    decreases rows.len(),
{
    reveal_with_fuel(Seq::filter, 2);
    let kept = rows.filter(p);
    if rows.len() > 0 {
        let rest = rows.drop_last();
        let before = rest.filter(p);
        lemma_filter_members(rest, p);
        assert forall|r: RowView| #[trigger] kept.contains(r) <==> rows.contains(r) && p(r) by {
            if kept.contains(r) {
                let i = choose|i: int| 0 <= i < kept.len() && kept[i] == r;
                if i < before.len() {
                    assert(before[i] == r);
                    assert(before.contains(r));
                    let j = choose|j: int| 0 <= j < rest.len() && rest[j] == r;
                    assert(rows[j] == r);
                } else {
                    assert(rows[rows.len() - 1] == r);
                }
            }
            if rows.contains(r) && p(r) {
                let j = choose|j: int| 0 <= j < rows.len() && rows[j] == r;
                if j < rest.len() {
                    assert(rest[j] == r);
                    assert(before.contains(r));
                    let i = choose|i: int| 0 <= i < before.len() && before[i] == r;
                    assert(kept[i] == r);
                } else {
                    assert(kept[kept.len() - 1] == r);
                }
            }
        }
        if ids_are_distinct(rows) {
            assert(ids_are_distinct(rest));
            assert forall|i: int, j: int| 0 <= i < j < kept.len() implies #[trigger] kept[i].id
                != #[trigger] kept[j].id by {
                if j < before.len() {
                    assert(before[i].id != before[j].id);
                } else {
                    assert(before[i] == kept[i]);
                    assert(before.contains(before[i]));
                    let m = choose|m: int| 0 <= m < rest.len() && rest[m] == before[i];
                    assert(rows[m].id != rows[rows.len() - 1].id);
                }
            }
        }
    }
}

// ---------------------------------------------------------------------------
// Pruning
// ---------------------------------------------------------------------------

/// Where the limit is kept, everything stays.
pub proof fn lemma_pruned_within_limit(rows: Seq<RowView>, limit: nat)
    requires
        unpinned(rows) <= limit,
    ensures
        pruned(rows, limit) == rows,
{
    let p = |r: RowView| stays(rows, limit, r);
    assert forall|i: int| 0 <= i < rows.len() implies p(#[trigger] rows[i]) by {
        if !rows[i].pinned {
            lemma_newer_less(rows, i);
        }
    }
    lemma_filter_all(rows, p);
}

/// An unpinned row is not more recent than itself, so that fewer than all are more recent.
pub proof fn lemma_newer_less(rows: Seq<RowView>, i: int)
    requires
        0 <= i < rows.len(),
        !rows[i].pinned,
    ensures
        newer(rows, rows[i]) < unpinned(rows),
{
    let row = rows[i];
    let p = |r: RowView| !r.pinned && more_recent(r, row);
    let q = |r: RowView| !r.pinned;
    recency_is_an_order(row, row, row);
    lemma_count_remove(rows, p, i);
    lemma_count_remove(rows, q, i);
    lemma_count_implies(rows.remove(i), p, q);
}

pub proof fn lemma_count_implies(
    rows: Seq<RowView>,
    p: spec_fn(RowView) -> bool,
    q: spec_fn(RowView) -> bool,
)
    requires
        forall|r: RowView| p(r) ==> #[trigger] q(r),
    ensures
        count_where(rows, p) <= count_where(rows, q),
    decreases rows.len(),
{
    if rows.len() > 0 {
        lemma_count_implies(rows.drop_last(), p, q);
        assert(p(rows.last()) ==> q(rows.last()));
    }
}

/// Whether a row is the unpinned one that was not used for the longest time.
pub open spec fn is_oldest(rows: Seq<RowView>, m: int) -> bool {
    &&& 0 <= m < rows.len()
    &&& !rows[m].pinned
    &&& forall|j: int|
        0 <= j < rows.len() && j != m && !(#[trigger] rows[j]).pinned ==> more_recent(
            rows[j],
            rows[m],
        )
}

/// Where the limit is exceeded, the oldest row goes, and what stays is the same without it.
pub proof fn lemma_pruned_without_oldest(rows: Seq<RowView>, limit: nat, m: int)
    requires
        is_oldest(rows, m),
        limit < unpinned(rows),
    ensures
        pruned(rows.remove(m), limit) == pruned(rows, limit),
        unpinned(rows.remove(m)) == unpinned(rows) - 1,
        !stays(rows, limit, rows[m]),
{
    let rest = rows.remove(m);
    let oldest = rows[m];
    let q = |r: RowView| !r.pinned;
    lemma_count_remove(rows, q, m);
    // All others are more recent than the oldest row.
    let p = |r: RowView| !r.pinned && more_recent(r, oldest);
    assert(newer(rows, oldest) == unpinned(rest)) by {
        recency_is_an_order(oldest, oldest, oldest);
        lemma_count_remove(rows, p, m);
        assert forall|i: int| 0 <= i < rest.len() implies p(#[trigger] rest[i]) == q(rest[i]) by {
            let j = if i < m {
                i
            } else {
                i + 1
            };
            assert(rest[i] == rows[j]);
        }
        lemma_count_same(rest, p, q);
    }
    let keep_all = |r: RowView| stays(rows, limit, r);
    let keep_rest = |r: RowView| stays(rest, limit, r);
    lemma_filter_remove(rows, keep_all, m);
    assert forall|i: int| 0 <= i < rest.len() implies keep_all(#[trigger] rest[i]) == keep_rest(
        rest[i],
    ) by {
        let row = rest[i];
        let j = if i < m {
            i
        } else {
            i + 1
        };
        assert(row == rows[j]);
        if !row.pinned {
            let c = |r: RowView| !r.pinned && more_recent(r, row);
            lemma_count_remove(rows, c, m);
            recency_is_an_order(row, oldest, row);
        }
    }
    lemma_filter_same(rest, keep_all, keep_rest);
}

/// Whether a row was used more recently than another.
fn used_more_recently(a: &ClipRow, b: &ClipRow) -> (r: bool)
    ensures
        r == more_recent(a@, b@),
{
    order::comes_before(b.last_used_at.as_str(), a.last_used_at.as_str()) || (crate::text::same_text(
        a.last_used_at.as_str(),
        b.last_used_at.as_str(),
    ) && order::comes_before(b.id.as_str(), a.id.as_str()))
}

/// How many unpinned rows there are.
pub fn count_unpinned(rows: &Vec<ClipRow>) -> (n: usize)
    ensures
        n == unpinned(row::row_views(rows@)),
{
    let ghost views = row::row_views(rows@);
    let mut n: usize = 0;
    let mut i: usize = 0;
    assert(views.take(0) =~= Seq::empty());
    while i < rows.len()
        invariant
            i <= rows@.len(),
            views == row::row_views(rows@),
            n == unpinned(views.take(i as int)),
            n <= i,
        decreases rows@.len() - i,
    {
        assert(views.take(i + 1).drop_last() =~= views.take(i as int));
        assert(views.take(i + 1).last() == rows@[i as int]@);
        if !rows[i].pinned {
            n = n + 1;
        }
        i = i + 1;
    }
    assert(views.take(i as int) =~= views);
    n
}

/// Whether the row at an index stays.
pub fn row_stays(rows: &Vec<ClipRow>, index: usize, limit: usize) -> (r: bool)
    requires
        index < rows@.len(),
    ensures
        r == stays(row::row_views(rows@), limit as nat, rows@[index as int]@),
{
    if rows[index].pinned {
        return true;
    }
    let ghost views = row::row_views(rows@);
    let ghost target = rows@[index as int]@;
    let mut n: usize = 0;
    let mut i: usize = 0;
    assert(views.take(0) =~= Seq::empty());
    while i < rows.len()
        invariant
            i <= rows@.len(),
            index < rows@.len(),
            views == row::row_views(rows@),
            target == rows@[index as int]@,
            n == newer(views.take(i as int), target),
            n <= i,
        decreases rows@.len() - i,
    {
        assert(views.take(i + 1).drop_last() =~= views.take(i as int));
        assert(views.take(i + 1).last() == rows@[i as int]@);
        if !rows[i].pinned && used_more_recently(&rows[i], &rows[index]) {
            n = n + 1;
        }
        i = i + 1;
    }
    assert(views.take(i as int) =~= views);
    n < limit
}

/// The unpinned row that was not used for the longest time.
fn oldest_unpinned(rows: &Vec<ClipRow>) -> (m: usize)
    requires
        ids_are_distinct(row::row_views(rows@)),
        unpinned(row::row_views(rows@)) > 0,
    ensures
        is_oldest(row::row_views(rows@), m as int),
{
    let ghost views = row::row_views(rows@);
    let mut found: bool = false;
    let mut m: usize = 0;
    let mut i: usize = 0;
    while i < rows.len()
        invariant
            i <= rows@.len(),
            views == row::row_views(rows@),
            ids_are_distinct(views),
            !found ==> forall|j: int| 0 <= j < i ==> (#[trigger] views[j]).pinned,
            found ==> m < i && !views[m as int].pinned && forall|j: int|
                0 <= j < i && j != m && !(#[trigger] views[j]).pinned ==> more_recent(
                    views[j],
                    views[m as int],
                ),
        decreases rows@.len() - i,
    {
        assert(views[i as int] == rows@[i as int]@);
        if !rows[i].pinned {
            if !found {
                found = true;
                m = i;
            } else {
                assert(views[m as int] == rows@[m as int]@);
                if used_more_recently(&rows[m], &rows[i]) {
                    proof {
                        assert forall|j: int|
                            0 <= j < i + 1 && j != i && !(
                            #[trigger] views[j]).pinned implies more_recent(
                            views[j],
                            views[i as int],
                        ) by {
                            if j != m {
                                recency_is_an_order(views[j], views[m as int], views[i as int]);
                            }
                        }
                    }
                    m = i;
                } else {
                    proof {
                        assert(views[m as int].id != views[i as int].id);
                        recency_is_an_order(views[m as int], views[i as int], views[m as int]);
                    }
                }
            }
        }
        i = i + 1;
    }
    proof {
        if !found {
            lemma_count_bounds(views, |r: RowView| !r.pinned);
            assert(false);
        }
    }
    m
}

/// Drops the rows that do not stay. A limit that is out of range is refused, and drops nothing.
pub fn prune(rows: &mut Vec<ClipRow>, limit: usize) -> (r: Result<(), StoreError>)
    requires
        ids_are_distinct(row::row_views(old(rows)@)),
    ensures
        store::is_history_limit(limit as int) ==> r is Ok && row::row_views(final(rows)@)
            == pruned(row::row_views(old(rows)@), limit as nat),
        !store::is_history_limit(limit as int) ==> r == Err::<(), StoreError>(
            StoreError::LimitOutOfRange,
        ) && row::row_views(final(rows)@) == row::row_views(old(rows)@),
{
    match store::validate_history_limit(limit) {
        Ok(()) => {},
        Err(e) => {
            return Err(e);
        },
    }
    let ghost all = row::row_views(rows@);
    let mut n: usize = count_unpinned(rows);
    while n > limit
        invariant
            n == unpinned(row::row_views(rows@)),
            ids_are_distinct(row::row_views(rows@)),
            pruned(row::row_views(rows@), limit as nat) == pruned(all, limit as nat),
        decreases n,
    {
        let ghost before = row::row_views(rows@);
        let m: usize = oldest_unpinned(rows);
        proof {
            lemma_pruned_without_oldest(before, limit as nat, m as int);
        }
        rows.remove(m);
        proof {
            let after = row::row_views(rows@);
            assert(after =~= before.remove(m as int));
            assert forall|i: int, j: int| 0 <= i < j < after.len() implies #[trigger] after[i].id
                != #[trigger] after[j].id by {
                let a = if i < m {
                    i
                } else {
                    i + 1
                };
                let b = if j < m {
                    j
                } else {
                    j + 1
                };
                assert(after[i] == before[a] && after[j] == before[b]);
            }
        }
        n = n - 1;
    }
    proof {
        lemma_pruned_within_limit(row::row_views(rows@), limit as nat);
    }
    Ok(())
}

} // verus!
