//! What an operation changed: the rows that have to be written, and those that have to go.

use crate::store::history::{self, HistoryStore};
use crate::store::retention;
use crate::store::row::{self, ClipRow, RowView};
use crate::text;
use vstd::hash_map::StringHashMap;
use vstd::prelude::*;

verus! {

/// A row by its identifier, and when it was used.
#[derive(Clone, Debug, PartialEq, Eq)]
pub struct RowStamp {
    pub id: String,
    pub last_used_at: String,
}

/// The contents of a row's stamp.
#[verifier::ext_equal]
pub struct StampView {
    pub id: Seq<char>,
    pub last_used_at: Seq<char>,
}

impl View for RowStamp {
    type V = StampView;

    open spec fn view(&self) -> StampView {
        StampView { id: self.id@, last_used_at: self.last_used_at@ }
    }
}

/// The contents of stamps.
pub open spec fn stamp_views(stamps: Seq<RowStamp>) -> Seq<StampView> {
    stamps.map_values(|stamp: RowStamp| stamp@)
}

/// The stamps of rows.
pub open spec fn stamps_of(rows: Seq<RowView>) -> Seq<StampView> {
    rows.map_values(|row: RowView| StampView { id: row.id, last_used_at: row.last_used_at })
}

/// The identifiers of stamps.
pub open spec fn ids_of(stamps: Seq<StampView>) -> Seq<Seq<char>> {
    stamps.map_values(|stamp: StampView| stamp.id)
}

/// When the last of the rows with an identifier was used.
pub open spec fn known_use(known: Seq<StampView>, id: Seq<char>) -> Option<Seq<char>>
    decreases known.len(),
{
    if known.len() == 0 {
        None
    } else if known.last().id == id {
        Some(known.last().last_used_at)
    } else {
        known_use(known.drop_last(), id)
    }
}

/// Whether a row was not there before.
pub open spec fn is_added(known: Seq<StampView>, row: RowView) -> bool {
    known_use(known, row.id) is None
}

/// Whether a row was there before, and was used since.
pub open spec fn is_used_again(known: Seq<StampView>, row: RowView) -> bool {
    known_use(known, row.id) matches Some(moment) && moment != row.last_used_at
}

/// The rows that were added, the rows that were used again, and the identifiers of those that are
/// gone.
#[derive(Clone, Debug, PartialEq, Eq)]
pub struct RowChanges {
    pub added: Vec<ClipRow>,
    pub used: Vec<ClipRow>,
    pub removed: Vec<String>,
}

/// The rows that were not there before.
pub open spec fn added_rows(known: Seq<StampView>, rows: Seq<RowView>) -> Seq<RowView> {
    rows.filter(|row: RowView| is_added(known, row))
}

/// The rows that were there before, and were used since.
pub open spec fn used_rows(known: Seq<StampView>, rows: Seq<RowView>) -> Seq<RowView> {
    rows.filter(|row: RowView| is_used_again(known, row))
}

/// The identifiers of the rows that are gone.
pub open spec fn removed_ids(known: Seq<StampView>, rows: Seq<RowView>) -> Seq<Seq<char>> {
    ids_of(known).filter(|id: Seq<char>| !history::has_id(rows, id))
}

/// A row with the moment of its last use.
pub open spec fn with_use(used: Seq<RowView>, row: RowView) -> RowView {
    match known_use(stamps_of(used), row.id) {
        Some(moment) => RowView { last_used_at: moment, ..row },
        None => row,
    }
}

/// Rows after changes were written: without those that are gone, with new moments where rows were
/// used again, and with the added ones at the end.
pub open spec fn rewritten(
    rows: Seq<RowView>,
    added: Seq<RowView>,
    used: Seq<RowView>,
    removed: Seq<Seq<char>>,
) -> Seq<RowView> {
    rows.filter(|row: RowView| !removed.contains(row.id)).map_values(
        |row: RowView| with_use(used, row),
    ) + added
}

proof fn lemma_known_use(known: Seq<StampView>, id: Seq<char>)
    ensures
        match known_use(known, id) {
            Some(moment) => exists|i: int|
                0 <= i < known.len() && (#[trigger] known[i]).id == id && known[i].last_used_at
                    == moment,
            None => forall|i: int| 0 <= i < known.len() ==> (#[trigger] known[i]).id != id,
        },
    decreases known.len(),
{
    if known.len() > 0 && known.last().id != id {
        let rest = known.drop_last();
        lemma_known_use(rest, id);
        match known_use(known, id) {
            Some(moment) => {
                let i = choose|i: int|
                    0 <= i < rest.len() && (#[trigger] rest[i]).id == id && rest[i].last_used_at
                        == moment;
                assert(known[i].id == id && known[i].last_used_at == moment);
            },
            None => {
                assert forall|i: int| 0 <= i < known.len() implies (#[trigger] known[i]).id
                    != id by {
                    if i < rest.len() {
                        assert(rest[i].id != id);
                    }
                }
            },
        }
    } else if known.len() > 0 {
        assert(known[known.len() - 1].id == id);
    }
}

proof fn lemma_same_choice(
    a: Seq<RowView>,
    b: Seq<RowView>,
    p: spec_fn(RowView) -> bool,
    q: spec_fn(RowView) -> bool,
    f: spec_fn(RowView) -> RowView,
)
    requires
        a.len() == b.len(),
        forall|i: int| 0 <= i < a.len() ==> p(#[trigger] a[i]) == q(b[i]),
        forall|i: int| 0 <= i < a.len() && q(b[i]) ==> f(#[trigger] a[i]) == b[i],
    ensures
        a.filter(p).map_values(f) == b.filter(q),
    decreases a.len(),
{
    reveal_with_fuel(Seq::filter, 2);
    if a.len() > 0 {
        let n = a.len() - 1;
        let fewer_a = a.drop_last();
        let fewer_b = b.drop_last();
        assert forall|i: int| 0 <= i < n implies p(#[trigger] fewer_a[i]) == q(fewer_b[i]) && (q(
            fewer_b[i],
        ) ==> f(fewer_a[i]) == fewer_b[i]) by {
            assert(p(a[i]) == q(b[i]));
        }
        lemma_same_choice(fewer_a, fewer_b, p, q, f);
        assert(p(a[n]) == q(b[n]));
        if p(a[n]) {
            assert(a.filter(p).map_values(f) =~= fewer_a.filter(p).map_values(f).push(b[n]));
        }
    }
    assert(a.filter(p).map_values(f) =~= b.filter(q));
}

proof fn lemma_none_chosen(rows: Seq<RowView>, p: spec_fn(RowView) -> bool)
    requires
        forall|i: int| 0 <= i < rows.len() ==> !p(#[trigger] rows[i]),
    ensures
        rows.filter(p) == Seq::<RowView>::empty(),
{
    let kept = rows.filter(p);
    retention::lemma_filter_members(rows, p);
    if kept.len() > 0 {
        assert(kept.contains(kept[0]));
        let i = choose|i: int| 0 <= i < rows.len() && rows[i] == kept[0];
        assert(!p(rows[i]));
    }
    assert(kept =~= Seq::empty());
}

/// Writing the changes gives the new rows, where rows were at most used again, new ones were added
/// at the end, and then some were dropped.
pub proof fn written_changes_give_the_rows(
    before: Seq<RowView>,
    changed: Seq<RowView>,
    keep: spec_fn(RowView) -> bool,
)
    requires
        retention::ids_are_distinct(changed),
        before.len() <= changed.len(),
        forall|i: int|
            0 <= i < before.len() ==> #[trigger] changed[i] == (RowView {
                last_used_at: changed[i].last_used_at,
                ..before[i]
            }),
    ensures
        ({
            let after = changed.filter(keep);
            let known = stamps_of(before);
            rewritten(
                before,
                added_rows(known, after),
                used_rows(known, after),
                removed_ids(known, after),
            ) == after
        }),
{
    let n = before.len() as int;
    let after = changed.filter(keep);
    let known = stamps_of(before);
    let used = used_rows(known, after);
    let removed = removed_ids(known, after);
    let head = changed.take(n);
    let tail = changed.skip(n);
    let new = |row: RowView| is_added(known, row);
    let again = |row: RowView| is_used_again(known, row);
    let gone = |id: Seq<char>| !history::has_id(after, id);
    let p = |row: RowView| !removed.contains(row.id);
    let f = |row: RowView| with_use(used, row);
    assert(changed =~= head + tail);
    Seq::filter_distributes_over_add(head, tail, keep);
    Seq::filter_distributes_over_add(head.filter(keep), tail.filter(keep), new);
    retention::lemma_filter_members(changed, keep);
    retention::lemma_filter_members(head, keep);
    retention::lemma_filter_members(tail, keep);
    retention::lemma_filter_members(after, again);
    assert forall|i: int| 0 <= i < n implies p(#[trigger] before[i]) == keep(head[i]) && (keep(
        head[i],
    ) ==> f(before[i]) == head[i]) && known_use(known, before[i].id) == Some(
        before[i].last_used_at,
    ) by {
        let id = before[i].id;
        assert(head[i] == changed[i]);
        assert(ids_of(known)[i] == id);
        assert(ids_of(known).contains(id));
        lemma_known_use(known, id);
        assert forall|j: int| 0 <= j < changed.len() && (#[trigger] changed[j]).id == id implies j
            == i by {
            if j < i {
                assert(changed[j].id != changed[i].id);
            } else if i < j {
                assert(changed[i].id != changed[j].id);
            }
        }
        assert forall|j: int| 0 <= j < n && (#[trigger] known[j]).id == id implies j == i by {
            assert(changed[j].id == id);
        }
        assert(known[i].id == id);
        // Kept exactly where the identifier is still there.
        assert(history::has_id(after, id) == keep(changed[i])) by {
            if keep(changed[i]) {
                assert(changed.contains(changed[i]));
                assert(after.contains(changed[i]));
                let k = choose|k: int| 0 <= k < after.len() && after[k] == changed[i];
                assert(after[k].id == id);
            }
            if history::has_id(after, id) {
                let k = choose|k: int| 0 <= k < after.len() && (#[trigger] after[k]).id == id;
                assert(after.contains(after[k]));
                let j = choose|j: int| 0 <= j < changed.len() && changed[j] == after[k];
                assert(changed[j].id == id);
            }
        }
        assert(removed.contains(id) == gone(id)) by {
            broadcast use vstd::seq_lib::group_filter_ensures;

            if gone(id) {
                assert(removed.contains(ids_of(known)[i]));
            }
            if removed.contains(id) {
                let k = choose|k: int| 0 <= k < removed.len() && removed[k] == id;
                assert(gone(removed[k]));
            }
        }
        // Every row of this identifier that was used again is this one.
        lemma_known_use(stamps_of(used), id);
        assert forall|k: int| 0 <= k < used.len() && (#[trigger] used[k]).id == id implies used[k]
            == changed[i] && again(changed[i]) by {
            assert(used.contains(used[k]));
            assert(after.contains(used[k]));
            let j = choose|j: int| 0 <= j < changed.len() && changed[j] == used[k];
            assert(changed[j].id == id);
        }
        if keep(changed[i]) {
            assert(changed.contains(changed[i]));
            assert(after.contains(changed[i]));
            match known_use(stamps_of(used), id) {
                Some(moment) => {
                    let k = choose|k: int|
                        0 <= k < stamps_of(used).len() && (#[trigger] stamps_of(used)[k]).id == id
                            && stamps_of(used)[k].last_used_at == moment;
                    assert(used[k].id == id);
                    assert(moment == changed[i].last_used_at);
                },
                None => {
                    if again(changed[i]) {
                        assert(used.contains(changed[i]));
                        let k = choose|k: int| 0 <= k < used.len() && used[k] == changed[i];
                        assert(stamps_of(used)[k].id == id);
                    }
                    assert(changed[i].last_used_at == before[i].last_used_at);
                },
            }
        }
    }
    lemma_same_choice(before, head, p, keep, f);
    // The rows that were there are known, and those at the end are new.
    let kept = head.filter(keep);
    assert forall|k: int| 0 <= k < kept.len() implies !new(#[trigger] kept[k]) by {
        assert(kept.contains(kept[k]));
        let i = choose|i: int| 0 <= i < head.len() && head[i] == kept[k];
        assert(known_use(known, before[i].id) is Some);
    }
    lemma_none_chosen(kept, new);
    let fresh = tail.filter(keep);
    assert forall|k: int| 0 <= k < fresh.len() implies new(#[trigger] fresh[k]) by {
        assert(fresh.contains(fresh[k]));
        let j = choose|j: int| 0 <= j < tail.len() && tail[j] == fresh[k];
        lemma_known_use(known, fresh[k].id);
        assert forall|i: int| 0 <= i < n implies (#[trigger] known[i]).id != fresh[k].id by {
            assert(changed[i].id != changed[n + j].id);
        }
    }
    retention::lemma_filter_all(fresh, new);
    assert(Seq::<RowView>::empty() + fresh =~= fresh);
}

/// When rows were used, by their identifiers.
fn uses(known: &[RowStamp]) -> (uses: StringHashMap<String>)
    ensures
        forall|id: Seq<char>| #[trigger]
            uses@.contains_key(id) <==> known_use(stamp_views(known@), id) is Some,
        forall|id: Seq<char>| #[trigger]
            uses@.contains_key(id) ==> known_use(stamp_views(known@), id) == Some(uses@[id]@),
{
    let ghost all = stamp_views(known@);
    let mut uses: StringHashMap<String> = StringHashMap::new();
    let mut i: usize = 0;
    while i < known.len()
        invariant
            i <= known@.len(),
            all == stamp_views(known@),
            forall|id: Seq<char>| #[trigger]
                uses@.contains_key(id) <==> known_use(all.take(i as int), id) is Some,
            forall|id: Seq<char>| #[trigger]
                uses@.contains_key(id) ==> known_use(all.take(i as int), id) == Some(uses@[id]@),
        decreases known@.len() - i,
    {
        let ghost more = all.take(i + 1);
        assert(more.drop_last() =~= all.take(i as int));
        assert(more.last() == known@[i as int]@);
        uses.insert(known[i].id.clone(), known[i].last_used_at.clone());
        i = i + 1;
    }
    assert(all.take(i as int) =~= all);
    uses
}

impl HistoryStore {
    /// The stamps of the rows.
    pub fn stamps(&self) -> (stamps: Vec<RowStamp>)
        ensures
            stamp_views(stamps@) == stamps_of(self@.rows),
    {
        let rows = self.rows();
        let ghost views = self@.rows;
        let mut stamps: Vec<RowStamp> = Vec::new();
        let mut i: usize = 0;
        while i < rows.len()
            invariant
                i <= rows@.len(),
                views == row::row_views(rows@),
                stamps@.len() == i,
                forall|j: int| 0 <= j < i ==> (#[trigger] stamps@[j])@ == stamps_of(views)[j],
            decreases rows@.len() - i,
        {
            assert(views[i as int] == rows@[i as int]@);
            stamps.push(
                RowStamp { id: rows[i].id.clone(), last_used_at: rows[i].last_used_at.clone() },
            );
            i = i + 1;
        }
        assert(stamp_views(stamps@) =~= stamps_of(views));
        stamps
    }

    /// What changed since the rows had these stamps.
    pub fn changes_since(&self, known: &[RowStamp]) -> (changes: RowChanges)
        ensures
            row::row_views(changes.added@) == added_rows(stamp_views(known@), self@.rows),
            row::row_views(changes.used@) == used_rows(stamp_views(known@), self@.rows),
            text::texts(changes.removed@) == removed_ids(stamp_views(known@), self@.rows),
    {
        let ghost before = stamp_views(known@);
        let ghost new = |row: RowView| is_added(before, row);
        let ghost again = |row: RowView| is_used_again(before, row);
        let uses = uses(known);
        let rows = self.rows();
        let ghost views = self@.rows;
        let mut added: Vec<ClipRow> = Vec::new();
        let mut used: Vec<ClipRow> = Vec::new();
        let mut i: usize = 0;
        proof {
            reveal_with_fuel(Seq::filter, 2);
            assert(views.take(0) =~= Seq::empty());
            assert(row::row_views(added@) =~= Seq::empty());
            assert(row::row_views(used@) =~= Seq::empty());
        }
        while i < rows.len()
            invariant
                i <= rows@.len(),
                views == row::row_views(rows@),
                new == (|row: RowView| is_added(before, row)),
                again == (|row: RowView| is_used_again(before, row)),
                forall|id: Seq<char>| #[trigger]
                    uses@.contains_key(id) <==> known_use(before, id) is Some,
                forall|id: Seq<char>| #[trigger]
                    uses@.contains_key(id) ==> known_use(before, id) == Some(uses@[id]@),
                row::row_views(added@) == views.take(i as int).filter(new),
                row::row_views(used@) == views.take(i as int).filter(again),
            decreases rows@.len() - i,
        {
            let ghost more = views.take(i + 1);
            let ghost added_before = row::row_views(added@);
            let ghost used_before = row::row_views(used@);
            proof {
                reveal_with_fuel(Seq::filter, 2);
                assert(more.drop_last() =~= views.take(i as int));
                assert(more.last() == rows@[i as int]@);
            }
            match uses.get(rows[i].id.as_str()) {
                None => {
                    added.push(rows[i].copy());
                    assert(row::row_views(added@) =~= added_before.push(rows@[i as int]@));
                },
                Some(moment) => {
                    if !text::same_text(moment.as_str(), rows[i].last_used_at.as_str()) {
                        used.push(rows[i].copy());
                        assert(row::row_views(used@) =~= used_before.push(rows@[i as int]@));
                    }
                },
            }
            i = i + 1;
        }
        assert(views.take(i as int) =~= views);
        let mut ids: Vec<String> = Vec::new();
        let mut n: usize = 0;
        while n < known.len()
            invariant
                n <= known@.len(),
                before == stamp_views(known@),
                ids@.len() == n,
                forall|j: int| 0 <= j < n ==> (#[trigger] ids@[j])@ == before[j].id,
            decreases known@.len() - n,
        {
            ids.push(known[n].id.clone());
            n = n + 1;
        }
        assert(text::texts(ids@) =~= ids_of(before));
        let removed = self.missing_ids(ids.as_slice());
        RowChanges { added, used, removed }
    }
}

// ---------------------------------------------------------------------------
// What counts as a change
// ---------------------------------------------------------------------------

/// The moment that is known for an identifier is that of the last stamp with it.
pub proof fn the_last_stamp_of_an_identifier_counts(known: Seq<StampView>, id: Seq<char>)
    ensures
        known_use(known, id) is None <==> forall|i: int|
            0 <= i < known.len() ==> (#[trigger] known[i]).id != id,
        known_use(known, id) matches Some(moment) ==> exists|i: int|
            0 <= i < known.len() && (#[trigger] known[i]).id == id && known[i].last_used_at == moment
                && forall|j: int| i < j < known.len() ==> (#[trigger] known[j]).id != id,
    decreases known.len(),
{
    lemma_known_use(known, id);
    if known.len() > 0 && known.last().id != id {
        let rest = known.drop_last();
        the_last_stamp_of_an_identifier_counts(rest, id);
        if let Some(moment) = known_use(known, id) {
            let i = choose|i: int|
                0 <= i < rest.len() && (#[trigger] rest[i]).id == id && rest[i].last_used_at == moment
                    && forall|j: int| i < j < rest.len() ==> (#[trigger] rest[j]).id != id;
            assert(known[i].id == id && known[i].last_used_at == moment);
            assert forall|j: int| i < j < known.len() implies (#[trigger] known[j]).id != id by {
                if j < rest.len() {
                    assert(rest[j].id != id);
                }
            }
        }
    } else if known.len() > 0 {
        assert(known[known.len() - 1].id == id);
    }
}

/// Added are the rows whose identifiers are not known; used again are those that are known with
/// another moment; and removed are the known identifiers that no row has. Each list keeps its order.
pub proof fn changes_are_what_differs(known: Seq<StampView>, rows: Seq<RowView>)
    requires
        forall|i: int, j: int|
            0 <= i < j < known.len() ==> (#[trigger] known[i]).id != (#[trigger] known[j]).id,
    ensures
        added_rows(known, rows) == rows.filter(
            |r: RowView| forall|i: int| 0 <= i < known.len() ==> (#[trigger] known[i]).id != r.id,
        ),
        used_rows(known, rows) == rows.filter(
            |r: RowView|
                exists|i: int|
                    0 <= i < known.len() && (#[trigger] known[i]).id == r.id && known[i].last_used_at
                        != r.last_used_at,
        ),
        removed_ids(known, rows) == Seq::new(known.len(), |i: int| known[i].id).filter(
            |id: Seq<char>| forall|k: int| 0 <= k < rows.len() ==> (#[trigger] rows[k]).id != id,
        ),
{
    let new = |r: RowView| is_added(known, r);
    let unknown = |r: RowView|
        forall|i: int| 0 <= i < known.len() ==> (#[trigger] known[i]).id != r.id;
    let again = |r: RowView| is_used_again(known, r);
    let moved = |r: RowView|
        exists|i: int|
            0 <= i < known.len() && (#[trigger] known[i]).id == r.id && known[i].last_used_at
                != r.last_used_at;
    let gone = |id: Seq<char>| !history::has_id(rows, id);
    let absent = |id: Seq<char>|
        forall|k: int| 0 <= k < rows.len() ==> (#[trigger] rows[k]).id != id;
    assert forall|r: RowView| #[trigger] new(r) == unknown(r) by {
        the_last_stamp_of_an_identifier_counts(known, r.id);
    }
    assert forall|r: RowView| #[trigger] again(r) == moved(r) by {
        the_last_stamp_of_an_identifier_counts(known, r.id);
        if let Some(moment) = known_use(known, r.id) {
            let k = choose|k: int|
                0 <= k < known.len() && (#[trigger] known[k]).id == r.id && known[k].last_used_at
                    == moment && forall|j: int| k < j < known.len() ==> (#[trigger] known[j]).id != r.id;
            assert(known[k].id == r.id);
            assert forall|i: int| 0 <= i < known.len() && (#[trigger] known[i]).id == r.id implies i
                == k by {
                if i < k {
                    assert(known[i].id != known[k].id);
                }
            }
        }
    }
    assert(new =~= unknown);
    assert(again =~= moved);
    assert forall|id: Seq<char>| #[trigger] gone(id) == absent(id) by {}
    assert(gone =~= absent);
    assert(ids_of(known) =~= Seq::new(known.len(), |i: int| known[i].id));
}

} // verus!
