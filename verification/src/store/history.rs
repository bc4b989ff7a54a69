//! The history: inserting, pinning, listing and searching.

use crate::model::{ClipInput, ClipView, InputView, StoredClip, UtcTime};
use crate::order::{self, Ranked};
use crate::store::retention::{self, prune};
use crate::store::row::{self, ClipRow, RowView};
use crate::store::{self, StoreError, DEFAULT_HISTORY_LIMIT, MAX_HISTORY_LIMIT};
use crate::{codec, text, time};
use vstd::hash_set::StringHashSet;
use vstd::prelude::*;

verus! {

/// The largest number of search results.
pub const MAX_SEARCH_RESULTS: usize = 1000;

/// A bounded history of clips.
pub struct HistoryStore {
    limit: String,
    rows: Vec<ClipRow>,
}

/// The contents of a history: the stored limit, and the rows in the order in which they came.
#[verifier::ext_equal]
pub struct HistoryView {
    pub limit: Seq<char>,
    pub rows: Seq<RowView>,
}

impl View for HistoryStore {
    type V = HistoryView;

    closed spec fn view(&self) -> HistoryView {
        HistoryView { limit: self.limit@, rows: row::row_views(self.rows@) }
    }
}

/// Whether a row is the one of those with a hash that was used last, and of several the first.
pub open spec fn is_latest_match(rows: Seq<RowView>, hash: Seq<char>, i: int) -> bool {
    &&& 0 <= i < rows.len()
    &&& rows[i].content_sha256 == hash
    &&& forall|j: int|
        0 <= j < rows.len() && (#[trigger] rows[j]).content_sha256 == hash ==> !order::text_before(
            rows[i].last_used_at,
            rows[j].last_used_at,
        ) && (j < i ==> order::text_before(rows[j].last_used_at, rows[i].last_used_at))
}

/// The row with a hash that was used last.
pub open spec fn latest_match(rows: Seq<RowView>, hash: Seq<char>) -> Option<int> {
    if exists|i: int| is_latest_match(rows, hash, i) {
        Some(choose|i: int| is_latest_match(rows, hash, i))
    } else {
        None
    }
}

/// Whether a row has an identifier.
pub open spec fn has_id(rows: Seq<RowView>, id: Seq<char>) -> bool {
    exists|i: int| 0 <= i < rows.len() && (#[trigger] rows[i]).id == id
}

/// Whether a row goes before another in the list: pinned ones first, then the one that was used
/// last, then by identifier.
pub open spec fn listed_before(a: RowView, b: RowView) -> bool {
    if a.pinned != b.pinned {
        a.pinned
    } else {
        order::text_before(b.last_used_at, a.last_used_at) || (a.last_used_at == b.last_used_at
            && order::text_before(a.id, b.id))
    }
}

/// The clips of rows, or the first column that cannot be read.
pub open spec fn decoded_all(rows: Seq<RowView>) -> Result<Seq<ClipView>, StoreError>
    decreases rows.len(),
{
    if rows.len() == 0 {
        Ok(seq![])
    } else {
        match decoded_all(rows.drop_last()) {
            Err(e) => Err(e),
            Ok(list) => match row::decoded(rows.last()) {
                Err(e) => Err(e),
                Ok(clip) => Ok(list.push(clip)),
            },
        }
    }
}

/// The contents of clips.
pub open spec fn clip_views(clips: Seq<StoredClip>) -> Seq<ClipView> {
    clips.map_values(|clip: StoredClip| clip@)
}

/// Whether a result is the decoded rows.
pub open spec fn is_decoded_list(
    r: Result<Vec<StoredClip>, StoreError>,
    expected: Result<Seq<ClipView>, StoreError>,
) -> bool {
    match expected {
        Ok(views) => r matches Ok(clips) && clip_views(clips@) == views,
        Err(error) => r matches Err(e) && e == error,
    }
}

/// The rows at indices.
pub open spec fn rows_at(rows: Seq<RowView>, picks: Seq<usize>) -> Seq<RowView> {
    picks.map_values(|i: usize| rows[i as int])
}

/// A number between two bounds.
pub open spec fn clamped(n: nat, low: nat, high: nat) -> nat {
    if n < low {
        low
    } else if n > high {
        high
    } else {
        n
    }
}

impl HistoryView {
    /// A new history.
    pub open spec fn initial() -> HistoryView {
        HistoryView { limit: text::decimal(DEFAULT_HISTORY_LIMIT as nat), rows: seq![] }
    }

    /// No two rows have the same identifier.
    pub open spec fn wf(self) -> bool {
        retention::ids_are_distinct(self.rows)
    }

    /// The history after a limit was set.
    pub open spec fn limiting(self, limit: usize) -> Result<HistoryView, StoreError> {
        if store::is_history_limit(limit as int) {
            Ok(
                HistoryView {
                    limit: text::decimal(limit as nat),
                    rows: retention::pruned(self.rows, limit as nat),
                },
            )
        } else {
            Err(StoreError::LimitOutOfRange)
        }
    }

    /// The history with changed rows, of which one is wanted, after the limit was enforced. It
    /// fails where the wanted row would not stay or cannot be read.
    pub open spec fn settling(self, rows: Seq<RowView>, wanted: RowView, limit: usize) -> Result<
        (HistoryView, ClipView),
        StoreError,
    > {
        if !retention::stays(rows, limit as nat, wanted) {
            Err(StoreError::NotRetained)
        } else {
            match row::decoded(wanted) {
                Err(e) => Err(e),
                Ok(clip) => Ok(
                    (
                        HistoryView {
                            limit: self.limit,
                            rows: retention::pruned(rows, limit as nat),
                        },
                        clip,
                    ),
                ),
            }
        }
    }

    /// The history after a capture at a moment, and the stored clip.
    pub open spec fn inserting(self, input: InputView, id: u128, now: UtcTime) -> Result<
        (HistoryView, ClipView),
        StoreError,
    > {
        self.inserting_hashed(input, store::hash_of(input), id, now)
    }

    /// The history after a capture with a hash at a moment, and the stored clip. A clip with this
    /// hash that is already there is used again; otherwise one is added. Then the limit is
    /// enforced.
    pub open spec fn inserting_hashed(
        self,
        input: InputView,
        hash: Seq<char>,
        id: u128,
        now: UtcTime,
    ) -> Result<(HistoryView, ClipView), StoreError> {
        match store::input_error(input) {
            Some(e) => Err(e),
            None => match store::limit_of(self.limit) {
                Err(e) => Err(e),
                Ok(limit) => match time::rfc3339(now.seconds, now.nanoseconds) {
                    None => Err(StoreError::InvalidTime),
                    Some(stamp) => match latest_match(self.rows, hash) {
                        Some(i) => {
                            let row = RowView { last_used_at: stamp, ..self.rows[i] };
                            self.settling(self.rows.update(i, row), row, limit)
                        },
                        None => if !row::is_storable_title(input.title()) {
                            Err(StoreError::InvalidTitle)
                        } else if has_id(self.rows, codec::uuid_text(id)) {
                            Err(StoreError::DuplicateId)
                        } else {
                            let row = row::row_of(input, hash, id, stamp);
                            self.settling(self.rows.push(row), row, limit)
                        },
                    },
                },
            },
        }
    }

    /// Whether a new clip can be written down: it is well-formed, the stored limit can be read, and
    /// the identifier is free.
    pub open spec fn accepts(self, input: InputView, id: u128) -> bool {
        &&& store::input_error(input) is None
        &&& store::limit_of(self.limit) is Ok
        &&& row::is_storable_title(input.title())
        &&& !has_id(self.rows, codec::uuid_text(id))
    }

    /// Whether a new clip can be added at a moment: it can be written down, and it is recent enough
    /// to stay.
    pub open spec fn has_room_for(
        self,
        input: InputView,
        hash: Seq<char>,
        id: u128,
        now: UtcTime,
    ) -> bool {
        &&& self.accepts(input, id)
        &&& store::limit_of(self.limit) matches Ok(limit)
        &&& time::rfc3339(now.seconds, now.nanoseconds) matches Some(stamp)
        &&& ({
            let row = row::row_of(input, hash, id, stamp);
            retention::stays(self.rows.push(row), limit as nat, row)
        })
    }

    /// Whether a clip that is there can be used again at a moment: what is captured is well-formed,
    /// the stored limit can be read, and with this moment the clip is recent enough to stay.
    pub open spec fn has_room_again(self, i: int, input: InputView, now: UtcTime) -> bool {
        &&& store::input_error(input) is None
        &&& store::limit_of(self.limit) matches Ok(limit)
        &&& time::rfc3339(now.seconds, now.nanoseconds) matches Some(stamp)
        &&& ({
            let row = RowView { last_used_at: stamp, ..self.rows[i] };
            retention::stays(self.rows.update(i, row), limit as nat, row)
        })
    }

    /// Whether every unpinned clip was last used before a moment.
    pub open spec fn used_before(self, now: UtcTime) -> bool {
        forall|i: int|
            0 <= i < self.rows.len() && !(#[trigger] self.rows[i]).pinned
                ==> time::is_earlier_stamp(self.rows[i].last_used_at, now)
    }

    /// The history after a clip was pinned or unpinned.
    pub open spec fn pinning(self, id: u128, pinned: bool) -> Result<HistoryView, StoreError> {
        if has_id(self.rows, codec::uuid_text(id)) {
            Ok(
                HistoryView {
                    limit: self.limit,
                    rows: self.rows.map_values(
                        |r: RowView|
                            if r.id == codec::uuid_text(id) {
                                RowView { pinned, ..r }
                            } else {
                                r
                            },
                    ),
                },
            )
        } else {
            Err(StoreError::MissingClip)
        }
    }

    /// Whether rows are the first ones of the list.
    pub open spec fn is_listing(self, picks: Seq<usize>, limit: usize) -> bool {
        order::is_page(
            picks,
            self.rows.len(),
            clamped(limit as nat, 1, MAX_HISTORY_LIMIT as nat),
            |i: int, j: int| listed_before(self.rows[i], self.rows[j]),
        )
    }
}

/// Whether a result is the first clips of the list.
pub open spec fn is_list_answer(
    r: Result<Vec<StoredClip>, StoreError>,
    view: HistoryView,
    limit: usize,
) -> bool {
    exists|picks: Seq<usize>| #[trigger]
        view.is_listing(picks, limit) && is_decoded_list(
            r,
            decoded_all(rows_at(view.rows, picks)),
        )
}

/// Whether a history and a result are those of a capture with a hash at a moment. What was added is
/// read back as it was captured, and what was used again as it was stored, but for the moment of its
/// use. Where the unpinned clips were used before, the capture is recent enough to stay. A moment of
/// the years 0 to 9999 can be written and is read back, and a later one has a stamp that comes
/// later.
pub open spec fn is_capture(
    before: HistoryView,
    after: HistoryView,
    r: Result<StoredClip, StoreError>,
    input: InputView,
    hash: Seq<char>,
    id: u128,
    now: UtcTime,
) -> bool {
    &&& match before.inserting_hashed(input, hash, id, now) {
        Ok((next, view)) => {
            &&& r matches Ok(clip) && clip@ == view
            &&& after == next
        },
        Err(error) => {
            &&& r matches Err(e) && e == error
            &&& after == before
        },
    }
    &&& time::is_common_time(now) ==> match latest_match(before.rows, hash) {
        None => {
            &&& r matches Ok(clip) ==> clip@ == row::clip_of(input, id, now)
            &&& r is Ok <==> before.has_room_for(input, hash, id, now)
            &&& before.used_before(now) ==> (r is Ok <==> before.accepts(input, id))
        },
        Some(i) => row::decoded(before.rows[i]) matches Ok(known) ==> {
            &&& r matches Ok(clip) ==> clip@ == (ClipView { last_used_at: now, ..known })
            &&& r is Ok <==> before.has_room_again(i, input, now)
            &&& before.used_before(now) ==> (r is Ok <==> store::input_error(input) is None
                && store::limit_of(before.limit) is Ok)
        },
    }
    &&& time::is_common_time(now) ==> {
        &&& time::rfc3339(now.seconds, now.nanoseconds) matches Some(stamp)
        &&& row::time_of(stamp) == Some(now)
        &&& time::follows_earlier_stamps(stamp, now)
    }
}

/// A row that was used after every other unpinned one stays.
proof fn lemma_newest_stays(rows: Seq<RowView>, k: int, now: UtcTime, limit: nat)
    requires
        0 <= k < rows.len(),
        time::follows_earlier_stamps(rows[k].last_used_at, now),
        forall|j: int|
            0 <= j < rows.len() && j != k && !(#[trigger] rows[j]).pinned
                ==> time::is_earlier_stamp(rows[j].last_used_at, now),
        limit > 0,
    ensures
        retention::stays(rows, limit, rows[k]),
{
    let row = rows[k];
    let condition = |r: RowView| !r.pinned && retention::more_recent(r, row);
    assert forall|j: int| 0 <= j < rows.len() implies !condition(#[trigger] rows[j]) by {
        order::texts_are_totally_ordered(
            rows[j].last_used_at,
            row.last_used_at,
            rows[j].last_used_at,
        );
        retention::recency_is_an_order(rows[j], row, rows[j]);
    }
    retention::lemma_count_bounds(rows, condition);
}

/// What decides on the place of a row in the list.
struct ListKey {
    pinned: bool,
    last_used_at: String,
    id: String,
}

impl ListKey {
    /// The key of a row.
    spec fn is_of(self, row: RowView) -> bool {
        self.pinned == row.pinned && self.last_used_at@ == row.last_used_at && self.id@ == row.id
    }
}

impl Ranked for ListKey {
    closed spec fn before(&self, other: &Self) -> bool {
        if self.pinned != other.pinned {
            self.pinned
        } else {
            order::text_before(other.last_used_at@, self.last_used_at@) || (self.last_used_at@
                == other.last_used_at@ && order::text_before(self.id@, other.id@))
        }
    }

    proof fn before_is_an_order(a: &Self, b: &Self, c: &Self) {
        order::texts_are_totally_ordered(a.last_used_at@, b.last_used_at@, c.last_used_at@);
        order::texts_are_totally_ordered(c.last_used_at@, b.last_used_at@, a.last_used_at@);
        order::texts_are_totally_ordered(a.last_used_at@, c.last_used_at@, b.last_used_at@);
        order::texts_are_totally_ordered(b.last_used_at@, c.last_used_at@, a.last_used_at@);
        order::texts_are_totally_ordered(a.id@, b.id@, c.id@);
        order::texts_are_totally_ordered(c.id@, b.id@, a.id@);
        order::texts_are_totally_ordered(a.id@, c.id@, b.id@);
        order::texts_are_totally_ordered(b.id@, c.id@, a.id@);
    }

    fn goes_before(&self, other: &Self) -> (r: bool) {
        if self.pinned != other.pinned {
            self.pinned
        } else {
            order::comes_before(other.last_used_at.as_str(), self.last_used_at.as_str()) || (
            text::same_text(self.last_used_at.as_str(), other.last_used_at.as_str())
                && order::comes_before(self.id.as_str(), other.id.as_str()))
        }
    }
}

pub proof fn lemma_latest_match(rows: Seq<RowView>, hash: Seq<char>, i: int)
    requires
        is_latest_match(rows, hash, i),
    ensures
        latest_match(rows, hash) == Some(i),
{
    let j = choose|j: int| is_latest_match(rows, hash, j);
    order::texts_are_totally_ordered(
        rows[i].last_used_at,
        rows[j].last_used_at,
        rows[i].last_used_at,
    );
    if i < j {
        assert(order::text_before(rows[i].last_used_at, rows[j].last_used_at));
    } else if j < i {
        assert(order::text_before(rows[j].last_used_at, rows[i].last_used_at));
    }
}

/// A number between two bounds.
pub(crate) fn clamp(n: usize, low: usize, high: usize) -> (r: usize)
    requires
        low <= high,
    ensures
        r == clamped(n as nat, low as nat, high as nat),
{
    if n < low {
        low
    } else if n > high {
        high
    } else {
        n
    }
}

impl HistoryStore {
    /// No two rows have the same identifier.
    pub open spec fn wf(&self) -> bool {
        self@.wf()
    }

    /// A new history that is kept in memory.
    pub fn open_in_memory() -> (r: Result<Self, StoreError>)
        ensures
            r matches Ok(history) && history@ == HistoryView::initial() && history.wf(),
    {
        let history = HistoryStore {
            limit: text::decimal_text(DEFAULT_HISTORY_LIMIT as u64),
            rows: Vec::new(),
        };
        assert(history@ =~= HistoryView::initial());
        Ok(history)
    }

    /// A history of stored rows. It fails where two of them have the same identifier.
    pub fn from_rows(limit: String, rows: Vec<ClipRow>) -> (r: Result<Self, StoreError>)
        ensures
            r is Ok <==> retention::ids_are_distinct(row::row_views(rows@)),
            r matches Ok(history) ==> history.wf() && history@ == (HistoryView {
                limit: limit@,
                rows: row::row_views(rows@),
            }),
            r matches Err(e) ==> e == StoreError::DuplicateId,
    {
        let ghost views = row::row_views(rows@);
        let mut ids = StringHashSet::new();
        let mut i: usize = 0;
        while i < rows.len()
            invariant
                i <= rows@.len(),
                views == row::row_views(rows@),
                forall|id: Seq<char>| #[trigger]
                    ids@.contains(id) <==> exists|j: int|
                        0 <= j < i && (#[trigger] views[j]).id == id,
                forall|j: int, k: int|
                    0 <= j < k < i ==> #[trigger] views[j].id != #[trigger] views[k].id,
            decreases rows@.len() - i,
        {
            assert(views[i as int].id == rows@[i as int].id@);
            if ids.contains(rows[i].id.as_str()) {
                proof {
                    let j = choose|j: int| 0 <= j < i && (#[trigger] views[j]).id == views[i as int].id;
                    assert(views[j].id == views[i as int].id);
                }
                return Err(StoreError::DuplicateId);
            }
            let ghost before = ids@;
            ids.insert(rows[i].id.clone());
            proof {
                assert forall|id: Seq<char>| #[trigger] ids@.contains(id) <==> exists|j: int|
                    0 <= j < i + 1 && (#[trigger] views[j]).id == id by {
                    if ids@.contains(id) {
                        if before.contains(id) {
                            let j = choose|j: int| 0 <= j < i && (#[trigger] views[j]).id == id;
                            assert(views[j].id == id);
                        } else {
                            assert(views[i as int].id == id);
                        }
                    }
                    if exists|j: int| 0 <= j < i + 1 && (#[trigger] views[j]).id == id {
                        let j = choose|j: int| 0 <= j < i + 1 && (#[trigger] views[j]).id == id;
                        if j < i {
                            assert(before.contains(id));
                        }
                    }
                }
                assert forall|j: int, k: int| 0 <= j < k < i + 1 implies #[trigger] views[j].id
                    != #[trigger] views[k].id by {
                    if k == i && views[j].id == views[k].id {
                        assert(before.contains(views[i as int].id));
                    }
                }
            }
            i = i + 1;
        }
        let history = HistoryStore { limit, rows };
        assert(history@ =~= HistoryView { limit: limit@, rows: views });
        Ok(history)
    }

    /// The limit as it is stored.
    pub fn stored_limit(&self) -> (s: &str)
        ensures
            s@ == self@.limit,
    {
        self.limit.as_str()
    }

    /// The rows, in the order in which they came.
    pub fn rows(&self) -> (rows: &Vec<ClipRow>)
        ensures
            row::row_views(rows@) == self@.rows,
    {
        &self.rows
    }

    /// The number of unpinned clips that are kept.
    pub fn history_limit(&self) -> (r: Result<usize, StoreError>)
        ensures
            r == store::limit_of(self@.limit),
    {
        store::parse_history_limit(self.limit.as_str())
    }

    /// Sets the number of unpinned clips that are kept, and drops those that are too many.
    pub fn set_history_limit(&mut self, limit: usize) -> (r: Result<(), StoreError>)
        requires
            old(self).wf(),
        ensures
            final(self).wf(),
            match old(self)@.limiting(limit) {
                Ok(next) => r is Ok && final(self)@ == next,
                Err(error) => r == Err::<(), StoreError>(error) && final(self)@ == old(self)@,
            },
    {
        match store::validate_history_limit(limit) {
            Ok(()) => {},
            Err(e) => {
                return Err(e);
            },
        }
        proof {
            retention::lemma_filter_members(
                self@.rows,
                |r: RowView| retention::stays(self@.rows, limit as nat, r),
            );
        }
        self.limit = text::decimal_text(limit as u64);
        prune(&mut self.rows, limit)
    }

    /// The row with a hash that was used last.
    fn find_hash(&self, hash: &str) -> (r: Option<usize>)
        ensures
            match latest_match(self@.rows, hash@) {
                Some(i) => r matches Some(k) && k == i && k < self@.rows.len(),
                None => r is None,
            },
    {
        let ghost views = self@.rows;
        let mut found: Option<usize> = None;
        let mut i: usize = 0;
        while i < self.rows.len()
            invariant
                i <= self.rows@.len(),
                views == row::row_views(self.rows@),
                views == self@.rows,
                found matches Some(k) ==> k < i && views[k as int].content_sha256 == hash@
                    && forall|j: int|
                    0 <= j < i && (#[trigger] views[j]).content_sha256 == hash@
                        ==> !order::text_before(
                        views[k as int].last_used_at,
                        views[j].last_used_at,
                    ) && (j < k ==> order::text_before(
                        views[j].last_used_at,
                        views[k as int].last_used_at,
                    )),
                found is None ==> forall|j: int|
                    0 <= j < i ==> (#[trigger] views[j]).content_sha256 != hash@,
            decreases self.rows@.len() - i,
        {
            assert(views[i as int] == self.rows@[i as int]@);
            if text::same_text(self.rows[i].content_sha256.as_str(), hash) {
                match found {
                    None => {
                        proof {
                            order::texts_are_totally_ordered(
                                views[i as int].last_used_at,
                                views[i as int].last_used_at,
                                views[i as int].last_used_at,
                            );
                        }
                        found = Some(i);
                    },
                    Some(k) => {
                        assert(views[k as int] == self.rows@[k as int]@);
                        if order::comes_before(
                            self.rows[k].last_used_at.as_str(),
                            self.rows[i].last_used_at.as_str(),
                        ) {
                            proof {
                                assert forall|j: int|
                                    0 <= j < i + 1 && (#[trigger] views[j]).content_sha256
                                        == hash@ implies !order::text_before(
                                    views[i as int].last_used_at,
                                    views[j].last_used_at,
                                ) && (j < i ==> order::text_before(
                                    views[j].last_used_at,
                                    views[i as int].last_used_at,
                                )) by {
                                    order::texts_are_totally_ordered(
                                        views[j].last_used_at,
                                        views[k as int].last_used_at,
                                        views[i as int].last_used_at,
                                    );
                                    order::texts_are_totally_ordered(
                                        views[i as int].last_used_at,
                                        views[j].last_used_at,
                                        views[k as int].last_used_at,
                                    );
                                }
                            }
                            found = Some(i);
                        }
                    },
                }
            }
            i = i + 1;
        }
        proof {
            match found {
                Some(k) => {
                    assert(is_latest_match(views, hash@, k as int));
                    lemma_latest_match(views, hash@, k as int);
                },
                None => {
                    assert forall|j: int| !is_latest_match(views, hash@, j) by {}
                },
            }
        }
        found
    }

    /// The row with an identifier.
    pub(crate) fn find_id(&self, id: &str) -> (r: Option<usize>)
        ensures
            r is Some <==> has_id(self@.rows, id@),
            r matches Some(i) ==> i < self@.rows.len() && self@.rows[i as int].id == id@,
    {
        let ghost views = self@.rows;
        let mut i: usize = 0;
        while i < self.rows.len()
            invariant
                i <= self.rows@.len(),
                views == row::row_views(self.rows@),
                views == self@.rows,
                forall|j: int| 0 <= j < i ==> (#[trigger] views[j]).id != id@,
            decreases self.rows@.len() - i,
        {
            assert(views[i as int] == self.rows@[i as int]@);
            if text::same_text(self.rows[i].id.as_str(), id) {
                return Some(i);
            }
            i = i + 1;
        }
        None
    }

    /// Enforces the limit, where the wanted row stays and can be read.
    fn settle(&mut self, index: usize, limit: usize) -> (r: Result<StoredClip, StoreError>)
        requires
            old(self).wf(),
            index < old(self)@.rows.len(),
            store::is_history_limit(limit as int),
        ensures
            match old(self)@.settling(
                old(self)@.rows,
                old(self)@.rows[index as int],
                limit,
            ) {
                Ok((next, view)) => {
                    &&& r matches Ok(clip) && clip@ == view
                    &&& final(self)@ == next
                    &&& final(self).wf()
                },
                Err(error) => {
                    &&& r matches Err(e) && e == error
                    &&& final(self)@ == old(self)@
                },
            },
    {
        assert(self@.rows[index as int] == self.rows@[index as int]@);
        if !retention::row_stays(&self.rows, index, limit) {
            return Err(StoreError::NotRetained);
        }
        match row::decode_clip(&self.rows[index]) {
            Ok(clip) => {
                proof {
                    retention::lemma_filter_members(
                        self@.rows,
                        |r: RowView| retention::stays(self@.rows, limit as nat, r),
                    );
                }
                match prune(&mut self.rows, limit) {
                    Ok(()) => Ok(clip),
                    Err(e) => Err(e),
                }
            },
            Err(e) => Err(e),
        }
    }

    /// Stores a capture with an identifier, at a moment, under the hash of its content.
    pub fn insert_at(&mut self, input: &ClipInput, id: u128, now: UtcTime) -> (r: Result<
        StoredClip,
        StoreError,
    >)
        requires
            old(self).wf(),
        ensures
            final(self).wf(),
            is_capture(old(self)@, final(self)@, r, input@, store::hash_of(input@), id, now),
    {
        let hash = store::content_hash(input);
        self.insert_hashed(input, hash, id, now)
    }

    /// Stores a capture with a hash and an identifier, at a moment. A clip with this hash that is
    /// already there is used again; otherwise one is added. Then the limit is enforced. What was
    /// added is read back as it was captured.
    pub fn insert_hashed(
        &mut self,
        input: &ClipInput,
        hash: String,
        id: u128,
        now: UtcTime,
    ) -> (r: Result<StoredClip, StoreError>)
        requires
            old(self).wf(),
        ensures
            final(self).wf(),
            is_capture(old(self)@, final(self)@, r, input@, hash@, id, now),
    {
        let written = time::format_time(now);
        match store::validate_input(input) {
            Ok(()) => {},
            Err(e) => {
                return Err(e);
            },
        }
        let limit: usize = match self.history_limit() {
            Ok(limit) => limit,
            Err(e) => {
                return Err(e);
            },
        };
        let stamp = match written {
            Some(stamp) => stamp,
            None => {
                return Err(StoreError::InvalidTime);
            },
        };
        let ghost before = self@.rows;
        match self.find_hash(hash.as_str()) {
            Some(i) => {
                let known = self.rows[i].copy();
                let mut used = self.rows[i].copy();
                used.last_used_at = stamp;
                let ghost row = used@;
                assert(row =~= RowView { last_used_at: stamp@, ..before[i as int] });
                self.rows.set(i, used);
                proof {
                    assert(self@.rows =~= before.update(i as int, row));
                    assert forall|a: int, b: int|
                        0 <= a < b < self@.rows.len() implies #[trigger] self@.rows[a].id
                        != #[trigger] self@.rows[b].id by {
                        assert(before[a].id != before[b].id);
                    }
                    if time::is_common_time(now) && old(self)@.used_before(now) {
                        assert forall|j: int|
                            0 <= j < self@.rows.len() && j != i && !(#[trigger]
                            self@.rows[j]).pinned implies time::is_earlier_stamp(
                            self@.rows[j].last_used_at,
                            now,
                        ) by {
                            assert(self@.rows[j] == before[j]);
                        }
                        lemma_newest_stays(self@.rows, i as int, now, limit as nat);
                    }
                }
                match self.settle(i, limit) {
                    Ok(clip) => Ok(clip),
                    Err(e) => {
                        let ghost changed = self.rows@;
                        assert(row::row_views(changed) == before.update(i as int, row));
                        self.rows.set(i, known);
                        proof {
                            assert forall|j: int| 0 <= j < before.len() implies self@.rows[j]
                                == before[j] by {
                                assert(row::row_views(changed)[j] == before.update(i as int, row)[j]);
                            }
                            assert(self@.rows =~= before);
                        }
                        Err(e)
                    },
                }
            },
            None => {
                let title = input.title();
                if !row::storable_title(title.as_str()) {
                    return Err(StoreError::InvalidTitle);
                }
                let id_text = codec::format_uuid(id);
                if self.find_id(id_text.as_str()).is_some() {
                    return Err(StoreError::DuplicateId);
                }
                let added = row::encode_clip(input, hash, id, stamp.as_str());
                let ghost row = added@;
                let index: usize = self.rows.len();
                self.rows.push(added);
                proof {
                    assert(self@.rows =~= before.push(row));
                    assert forall|a: int, b: int|
                        0 <= a < b < self@.rows.len() implies #[trigger] self@.rows[a].id
                        != #[trigger] self@.rows[b].id by {
                        if b == before.len() {
                            assert(before[a].id != row.id);
                        } else {
                            assert(before[a].id != before[b].id);
                        }
                    }
                }
                proof {
                    if time::is_common_time(now) {
                        row::written_rows_are_read_back(input@, hash@, id, now, stamp@);
                        if old(self)@.used_before(now) {
                            assert forall|j: int|
                                0 <= j < self@.rows.len() && j != index && !(#[trigger]
                                self@.rows[j]).pinned implies time::is_earlier_stamp(
                                self@.rows[j].last_used_at,
                                now,
                            ) by {
                                assert(self@.rows[j] == before[j]);
                            }
                            lemma_newest_stays(self@.rows, index as int, now, limit as nat);
                        }
                    }
                }
                match self.settle(index, limit) {
                    Ok(clip) => Ok(clip),
                    Err(e) => {
                        let ghost changed = self.rows@;
                        assert(row::row_views(changed) == before.push(row));
                        self.rows.pop();
                        proof {
                            assert forall|j: int| 0 <= j < before.len() implies self@.rows[j]
                                == before[j] by {
                                assert(row::row_views(changed)[j] == before.push(row)[j]);
                            }
                            assert(self@.rows =~= before);
                        }
                        Err(e)
                    },
                }
            },
        }
    }

    /// Stores a capture under a random identifier, now.
    pub fn insert(&mut self, input: &ClipInput) -> (r: Result<StoredClip, StoreError>)
        requires
            old(self).wf(),
        ensures
            final(self).wf(),
            exists|id: u128, now: UtcTime|
                codec::is_random_uuid(id) && codec::is_drawn_uuid(id) && time::is_clock_reading(now)
                    && now.seconds >= 0 && now.nanoseconds < 1_000_000_000
                    && time::rfc3339(now.seconds, now.nanoseconds) is Some
                    && #[trigger] is_capture(
                    old(self)@,
                    final(self)@,
                    r,
                    input@,
                    store::hash_of(input@),
                    id,
                    now,
                ),
            r matches Err(e) ==> e != StoreError::InvalidTime,
            store::input_error(input@) matches Some(error) ==> r == Err::<StoredClip, StoreError>(
                error,
            ),
    {
        let id: u128 = codec::draw_uuid();
        let now = time::read_clock();
        let r = self.insert_at(input, id, now);
        assert(is_capture(old(self)@, self@, r, input@, store::hash_of(input@), id, now));
        r
    }

    /// The first clips of the list: pinned ones first, then those that were used last.
    pub fn list(&self, limit: usize) -> (r: Result<Vec<StoredClip>, StoreError>)
        ensures
            is_list_answer(r, self@, limit),
    {
        let k: usize = clamp(limit, 1, MAX_HISTORY_LIMIT);
        let ghost views = self@.rows;
        let mut keys: Vec<ListKey> = Vec::new();
        let mut i: usize = 0;
        while i < self.rows.len()
            invariant
                i <= self.rows@.len(),
                views == row::row_views(self.rows@),
                keys@.len() == i,
                forall|j: int| 0 <= j < i ==> (#[trigger] keys@[j]).is_of(views[j]),
            decreases self.rows@.len() - i,
        {
            assert(views[i as int] == self.rows@[i as int]@);
            keys.push(
                ListKey {
                    pinned: self.rows[i].pinned,
                    last_used_at: self.rows[i].last_used_at.clone(),
                    id: self.rows[i].id.clone(),
                },
            );
            i = i + 1;
        }
        let picks = order::first_in_order(keys.as_slice(), k);
        proof {
            let by_key = |i: int, j: int| keys@[i].before(&keys@[j]);
            let by_row = |i: int, j: int| listed_before(views[i], views[j]);
            assert forall|i: int, j: int|
                0 <= i < views.len() && 0 <= j < views.len() implies #[trigger] by_key(i, j) == by_row(
                i,
                j,
            ) by {
                assert(keys@[i].is_of(views[i]));
                assert(keys@[j].is_of(views[j]));
            }
            lemma_same_page(picks@, views.len(), k as nat, by_key, by_row);
            assert(self@.is_listing(picks@, limit));
        }
        self.decode_at(picks.as_slice())
    }

    /// The clips at indices, or the first column that cannot be read.
    pub(crate) fn decode_at(&self, picks: &[usize]) -> (r: Result<Vec<StoredClip>, StoreError>)
        requires
            forall|a: int| 0 <= a < picks@.len() ==> #[trigger] picks@[a] < self@.rows.len(),
        ensures
            is_decoded_list(r, decoded_all(rows_at(self@.rows, picks@))),
    {
        let ghost all = rows_at(self@.rows, picks@);
        let mut clips: Vec<StoredClip> = Vec::new();
        let mut i: usize = 0;
        assert(all.take(0) =~= Seq::empty());
        assert(clip_views(clips@) =~= Seq::empty());
        while i < picks.len()
            invariant
                i <= picks@.len(),
                all == rows_at(self@.rows, picks@),
                self@.rows == row::row_views(self.rows@),
                forall|a: int| 0 <= a < picks@.len() ==> #[trigger] picks@[a] < self@.rows.len(),
                decoded_all(all.take(i as int)) == Ok::<Seq<ClipView>, StoreError>(
                    clip_views(clips@),
                ),
            decreases picks@.len() - i,
        {
            let ghost more = all.take(i + 1);
            let ghost before = clip_views(clips@);
            assert(picks@[i as int] < self@.rows.len());
            assert(more.drop_last() =~= all.take(i as int));
            assert(more.last() == self.rows@[picks@[i as int] as int]@);
            match row::decode_clip(&self.rows[picks[i]]) {
                Ok(clip) => {
                    clips.push(clip);
                    assert(clip_views(clips@) =~= before.push(clip@));
                },
                Err(e) => {
                    proof {
                        lemma_first_error(all, i + 1, e);
                    }
                    return Err(e);
                },
            }
            i = i + 1;
        }
        assert(all.take(i as int) =~= all);
        Ok(clips)
    }

    /// Pins or unpins a clip.
    pub fn set_pinned(&mut self, id: u128, pinned: bool) -> (r: Result<(), StoreError>)
        requires
            old(self).wf(),
        ensures
            final(self).wf(),
            match old(self)@.pinning(id, pinned) {
                Ok(next) => r is Ok && final(self)@ == next,
                Err(error) => r == Err::<(), StoreError>(error) && final(self)@ == old(self)@,
            },
    {
        let id_text = codec::format_uuid(id);
        let ghost before = self@.rows;
        match self.find_id(id_text.as_str()) {
            Some(i) => {
                let mut row = self.rows[i].copy();
                row.pinned = pinned;
                let ghost changed = row@;
                assert(changed =~= RowView { pinned, ..before[i as int] });
                self.rows.set(i, row);
                proof {
                    let next = before.map_values(
                        |r: RowView|
                            if r.id == codec::uuid_text(id) {
                                RowView { pinned, ..r }
                            } else {
                                r
                            },
                    );
                    assert forall|j: int| 0 <= j < before.len() implies self@.rows[j] == next[j] by {
                        if j != i {
                            if j < i {
                                assert(before[j].id != before[i as int].id);
                            } else {
                                assert(before[i as int].id != before[j].id);
                            }
                        }
                    }
                    assert(self@.rows =~= next);
                    assert forall|a: int, b: int|
                        0 <= a < b < self@.rows.len() implies #[trigger] self@.rows[a].id
                        != #[trigger] self@.rows[b].id by {
                        assert(before[a].id != before[b].id);
                    }
                }
                Ok(())
            },
            None => Err(StoreError::MissingClip),
        }
    }

    /// The number of clips.
    pub fn count(&self) -> (r: Result<usize, StoreError>)
        ensures
            r matches Ok(n) && n == self@.rows.len(),
    {
        Ok(self.rows.len())
    }

    /// The number of clips with a vector.
    pub fn embedding_count(&self) -> (r: Result<usize, StoreError>)
        ensures
            r matches Ok(n) && n == retention::count_where(
                self@.rows,
                |row: RowView| row.embedded,
            ),
    {
        let ghost views = self@.rows;
        let ghost condition = |row: RowView| row.embedded;
        let mut n: usize = 0;
        let mut i: usize = 0;
        assert(views.take(0) =~= Seq::empty());
        while i < self.rows.len()
            invariant
                i <= self.rows@.len(),
                views == row::row_views(self.rows@),
                condition == (|row: RowView| row.embedded),
                n == retention::count_where(views.take(i as int), condition),
                n <= i,
            decreases self.rows@.len() - i,
        {
            assert(views.take(i + 1).drop_last() =~= views.take(i as int));
            assert(views.take(i + 1).last() == self.rows@[i as int]@);
            if self.rows[i].embedded {
                n = n + 1;
            }
            i = i + 1;
        }
        assert(views.take(i as int) =~= views);
        Ok(n)
    }

    /// The identifiers of the rows.
    fn ids(&self) -> (ids: StringHashSet)
        ensures
            forall|id: Seq<char>| #[trigger] ids@.contains(id) <==> has_id(self@.rows, id),
    {
        let ghost views = self@.rows;
        let mut ids = StringHashSet::new();
        let mut i: usize = 0;
        while i < self.rows.len()
            invariant
                i <= self.rows@.len(),
                views == row::row_views(self.rows@),
                forall|id: Seq<char>| #[trigger]
                    ids@.contains(id) <==> has_id(views.take(i as int), id),
            decreases self.rows@.len() - i,
        {
            let ghost before = ids@;
            assert(views[i as int] == self.rows@[i as int]@);
            ids.insert(self.rows[i].id.clone());
            proof {
                let fewer = views.take(i as int);
                let more = views.take(i + 1);
                assert forall|id: Seq<char>| #[trigger] ids@.contains(id) <==> has_id(
                    more,
                    id,
                ) by {
                    if has_id(fewer, id) {
                        let j = choose|j: int| 0 <= j < fewer.len() && (#[trigger] fewer[j]).id == id;
                        assert(more[j].id == id);
                    }
                    if has_id(more, id) {
                        let j = choose|j: int| 0 <= j < more.len() && (#[trigger] more[j]).id == id;
                        if j < i {
                            assert(fewer[j].id == id);
                        }
                    }
                    assert(more[i as int] == views[i as int]);
                }
            }
            i = i + 1;
        }
        assert(views.take(i as int) =~= views);
        ids
    }

    /// Those of some identifiers that the history does not have.
    pub fn missing_ids(&self, known: &[String]) -> (missing: Vec<String>)
        ensures
            text::texts(missing@) == text::texts(known@).filter(
                |id: Seq<char>| !has_id(self@.rows, id),
            ),
    {
        let ghost ids = text::texts(known@);
        let ghost gone = |id: Seq<char>| !has_id(self@.rows, id);
        let present = self.ids();
        let mut missing: Vec<String> = Vec::new();
        let mut i: usize = 0;
        proof {
            reveal_with_fuel(Seq::filter, 2);
            assert(ids.take(0) =~= Seq::empty());
            assert(text::texts(missing@) =~= Seq::empty());
        }
        while i < known.len()
            invariant
                i <= known@.len(),
                ids == text::texts(known@),
                gone == (|id: Seq<char>| !has_id(self@.rows, id)),
                forall|id: Seq<char>| #[trigger] present@.contains(id) <==> has_id(self@.rows, id),
                text::texts(missing@) == ids.take(i as int).filter(gone),
            decreases known@.len() - i,
        {
            let ghost more = ids.take(i + 1);
            let ghost before = text::texts(missing@);
            proof {
                reveal_with_fuel(Seq::filter, 2);
                assert(more.drop_last() =~= ids.take(i as int));
                assert(more.last() == known@[i as int]@);
            }
            if !present.contains(known[i].as_str()) {
                missing.push(known[i].clone());
                assert(text::texts(missing@) =~= before.push(known@[i as int]@));
            }
            i = i + 1;
        }
        assert(ids.take(i as int) =~= ids);
        missing
    }
}

/// A page by one order is a page by another that agrees with it.
pub proof fn lemma_same_page(
    picks: Seq<usize>,
    n: nat,
    k: nat,
    p: spec_fn(int, int) -> bool,
    q: spec_fn(int, int) -> bool,
)
    requires
        order::is_page(picks, n, k, p),
        forall|i: int, j: int| 0 <= i < n && 0 <= j < n ==> #[trigger] p(i, j) == q(i, j),
    ensures
        order::is_page(picks, n, k, q),
{
    assert forall|a: int, b: int| 0 <= a < b < picks.len() implies #[trigger] picks[a]
        != #[trigger] picks[b] && !q(picks[b] as int, picks[a] as int) by {
        assert(picks[a] < n && picks[b] < n);
        assert(p(picks[b] as int, picks[a] as int) == q(picks[b] as int, picks[a] as int));
    }
    assert forall|a: int, m: int|
        0 <= a < picks.len() && 0 <= m < n && !(#[trigger] picks.contains(m as usize)) implies !q(
        m,
        #[trigger] picks[a] as int,
    ) by {
        assert(picks[a] < n);
        assert(p(m, picks[a] as int) == q(m, picks[a] as int));
    }
}

/// Once a row cannot be read, its column is what is reported.
proof fn lemma_first_error(rows: Seq<RowView>, n: int, error: StoreError)
    requires
        0 <= n <= rows.len(),
        decoded_all(rows.take(n)) == Err::<Seq<ClipView>, StoreError>(error),
    ensures
        decoded_all(rows) == Err::<Seq<ClipView>, StoreError>(error),
    decreases rows.len() - n,
{
    if n == rows.len() {
        assert(rows.take(n) =~= rows);
    } else {
        assert(rows.take(n + 1).drop_last() =~= rows.take(n));
        lemma_first_error(rows, n + 1, error);
    }
}

/// As many clips are decoded as there are rows.
pub proof fn lemma_decoded_length(rows: Seq<RowView>)
    ensures
        decoded_all(rows) matches Ok(list) ==> list.len() == rows.len(),
    decreases rows.len(),
{
    if rows.len() > 0 {
        lemma_decoded_length(rows.drop_last());
    }
}

} // verus!
