//! What captures do: which of them are right, what is stored of them, and when they succeed.

use crate::model::{ClipKind, ClipView, InputView, StoredClip, UtcTime};
use crate::order;
use crate::store::history::{self, HistoryView};
use crate::store::laws;
use crate::store::limit_laws;
use crate::store::retention;
use crate::store::row::{self, RowView};
use crate::store::{self, StoreError};
use crate::{codec, json, text, time};
use vstd::prelude::*;

verus! {

// ---------------------------------------------------------------------------
// Which captures are right
// ---------------------------------------------------------------------------

/// A text is right exactly where it has a character other than white space, and it and its HTML have
/// at most 1 048 576 bytes together.
pub proof fn texts_are_right_up_to_their_size(text: Seq<char>, html: Option<Seq<char>>)
    ensures
        ({
            let input = InputView::Text { text, html };
            let size = vstd::utf8::encode_utf8(text).len() + match html {
                Some(html) => vstd::utf8::encode_utf8(html).len(),
                None => 0,
            };
            let blank = forall|i: int| 0 <= i < text.len() ==> text::is_white_space(#[trigger] text[i]);
            &&& blank ==> store::input_error(input) == Some(StoreError::EmptyText)
            &&& !blank && size > 1_048_576 ==> store::input_error(input) == Some(
                StoreError::TextTooLarge,
            )
            &&& !blank && size <= 1_048_576 ==> store::input_error(input) is None
        }),
{
}

/// An image is right exactly where it has between 8 and 8 388 608 bytes and begins with the eight
/// bytes of every PNG file. Without bytes, or with more, its size is wrong; otherwise it is no PNG.
pub proof fn images_are_right_up_to_their_size(bytes: Seq<u8>)
    ensures
        ({
            let input = InputView::ImagePng { bytes };
            let png = bytes.len() >= 8 && bytes[0] == 137 && bytes[1] == 80 && bytes[2] == 78
                && bytes[3] == 71 && bytes[4] == 13 && bytes[5] == 10 && bytes[6] == 26 && bytes[7]
                == 10;
            &&& !(1 <= bytes.len() <= 8_388_608) ==> store::input_error(input) == Some(
                StoreError::ImageSize,
            )
            &&& 1 <= bytes.len() <= 8_388_608 && !png ==> store::input_error(input) == Some(
                StoreError::NotPng,
            )
            &&& 1 <= bytes.len() <= 8_388_608 && png ==> store::input_error(input) is None
        }),
{
    if bytes.len() >= 8 {
        let head = bytes.subrange(0, 8);
        let signature = store::png_signature();
        if head == signature {
            assert(bytes[0] == head[0] && bytes[1] == head[1] && bytes[2] == head[2] && bytes[3]
                == head[3] && bytes[4] == head[4] && bytes[5] == head[5] && bytes[6] == head[6]
                && bytes[7] == head[7]);
        }
        if bytes[0] == 137 && bytes[1] == 80 && bytes[2] == 78 && bytes[3] == 71 && bytes[4] == 13
            && bytes[5] == 10 && bytes[6] == 26 && bytes[7] == 10 {
            assert(head =~= signature);
        }
    }
}

/// Files are right exactly where they are between 1 and 128, and the URI of each has at most 4096
/// bytes and no zero character.
pub proof fn files_are_right_up_to_their_number(uris: Seq<Seq<char>>)
    ensures
        ({
            let input = InputView::Files { uris };
            let clean = forall|i: int, j: int|
                0 <= i < uris.len() && 0 <= j < uris[i].len() ==> #[trigger] uris[i][j] != '\0';
            let short = forall|i: int|
                0 <= i < uris.len() ==> vstd::utf8::encode_utf8(#[trigger] uris[i]).len() <= 4096;
            &&& !(1 <= uris.len() <= 128) ==> store::input_error(input) == Some(
                StoreError::FileCount,
            )
            &&& 1 <= uris.len() <= 128 && !(clean && short) ==> store::input_error(input) == Some(
                StoreError::InvalidUri,
            )
            &&& 1 <= uris.len() <= 128 && clean && short ==> store::input_error(input) is None
        }),
{
    let clean = forall|i: int, j: int|
        0 <= i < uris.len() && 0 <= j < uris[i].len() ==> #[trigger] uris[i][j] != '\0';
    let short = forall|i: int|
        0 <= i < uris.len() ==> vstd::utf8::encode_utf8(#[trigger] uris[i]).len() <= 4096;
    if !clean {
        let (i, j) = choose|i: int, j: int|
            0 <= i < uris.len() && 0 <= j < uris[i].len() && #[trigger] uris[i][j] == '\0';
        assert(uris[i].contains('\0'));
        assert(store::is_invalid_uri(uris[i]));
    }
    if !short {
        let i = choose|i: int|
            0 <= i < uris.len() && vstd::utf8::encode_utf8(#[trigger] uris[i]).len() > 4096;
        assert(store::is_invalid_uri(uris[i]));
    }
    if clean && short {
        assert forall|i: int| 0 <= i < uris.len() implies !store::is_invalid_uri(
            #[trigger] uris[i],
        ) by {
            if uris[i].contains('\0') {
                let j = choose|j: int| 0 <= j < uris[i].len() && uris[i][j] == '\0';
                assert(uris[i][j] == '\0');
            }
        }
    }
}

/// A title can be stored exactly where it begins with another character than zero, and has at most
/// 512 characters before the first zero.
pub proof fn titles_are_storable_by_their_length(title: Seq<char>)
    ensures
        row::is_storable_title(title) <==> title.len() > 0 && title[0] != '\0' && (title.len() <= 512
            || exists|i: int| 0 <= i <= 512 && #[trigger] title[i] == '\0'),
{
    text::parts_end_before_the_first_occurrence(title, '\0');
    let n = text::before(title, '\0').len() as int;
    if n > 0 {
        assert(title[0] != '\0');
    }
    if n < title.len() {
        assert(title[n] == '\0');
    }
    if title.len() > 512 && exists|i: int| 0 <= i <= 512 && #[trigger] title[i] == '\0' {
        let i = choose|i: int| 0 <= i <= 512 && #[trigger] title[i] == '\0';
        assert(n <= i);
    }
}

// ---------------------------------------------------------------------------
// What is stored
// ---------------------------------------------------------------------------

/// What is written down of a capture: its kind, its contents and nothing else, its identifier and
/// its hash; it is not pinned, and it was used when it was captured. A vector belongs to it where
/// there is something to be found in.
pub proof fn rows_hold_what_was_captured(
    input: InputView,
    hash: Seq<char>,
    id: u128,
    stamp: Seq<char>,
)
    ensures
        ({
            let r = row::row_of(input, hash, id, stamp);
            let searched = input.search_text();
            &&& r.id == codec::uuid_text(id)
            &&& r.content_sha256 == hash
            &&& r.title == input.title()
            &&& r.created_at == stamp
            &&& r.last_used_at == stamp
            &&& !r.pinned
            &&& r.embedded <==> exists|i: int|
                0 <= i < searched.len() && !text::is_white_space(#[trigger] searched[i])
            &&& match input {
                InputView::Text { text, html } => r.kind == "text"@ && r.text_content == Some(text)
                    && r.html_content == html && r.image_png is None && r.file_uris_json
                    == json::json_array(Seq::empty()),
                InputView::ImagePng { bytes } => r.kind == "image"@ && r.text_content is None
                    && r.html_content is None && r.image_png == Some(bytes) && r.file_uris_json
                    == json::json_array(Seq::empty()),
                InputView::Files { uris } => r.kind == "files"@ && r.text_content is None
                    && r.html_content is None && r.image_png is None && r.file_uris_json
                    == json::json_array(uris),
            }
        }),
{
}

/// What is returned of a capture that was added.
pub proof fn clips_hold_what_was_captured(input: InputView, id: u128, now: UtcTime)
    ensures
        ({
            let clip = row::clip_of(input, id, now);
            &&& clip.id == id
            &&& clip.title == input.title()
            &&& !clip.pinned
            &&& clip.created_at == now
            &&& clip.last_used_at == now
            &&& match input {
                InputView::Text { text, html } => clip.kind == ClipKind::Text && clip.text == Some(
                    text,
                ) && clip.html == html && clip.image_png is None && clip.file_uris.len() == 0,
                InputView::ImagePng { bytes } => clip.kind == ClipKind::Image && clip.text is None
                    && clip.html is None && clip.image_png == Some(bytes) && clip.file_uris.len()
                    == 0,
                InputView::Files { uris } => clip.kind == ClipKind::Files && clip.text is None
                    && clip.html is None && clip.image_png is None && clip.file_uris == uris,
            }
        }),
{
}

/// A row is read where its identifier, its kind, its file list and both moments can be read; the
/// first of them that cannot is what is reported. The rest is taken as it stands.
pub proof fn rows_are_read_column_by_column(r: RowView)
    ensures
        ({
            let id = codec::uuid_of(r.id);
            let kind = r.kind == "text"@ || r.kind == "image"@ || r.kind == "files"@;
            let files = json::json_list(r.file_uris_json);
            let created = time::rfc3339_time(r.created_at);
            let used = time::rfc3339_time(r.last_used_at);
            &&& id is None ==> row::decoded(r) == Err::<ClipView, StoreError>(
                StoreError::InvalidColumn { column: 0 },
            )
            &&& id is Some && !kind ==> row::decoded(r) == Err::<ClipView, StoreError>(
                StoreError::InvalidColumn { column: 1 },
            )
            &&& id is Some && kind && files is None ==> row::decoded(r) == Err::<ClipView, StoreError>(
                StoreError::InvalidColumn { column: 6 },
            )
            &&& id is Some && kind && files is Some && created is None ==> row::decoded(r) == Err::<
                ClipView,
                StoreError,
            >(StoreError::InvalidColumn { column: 8 })
            &&& id is Some && kind && files is Some && created is Some && used is None
                ==> row::decoded(r) == Err::<ClipView, StoreError>(
                StoreError::InvalidColumn { column: 9 },
            )
            &&& id is Some && kind && files is Some && created is Some && used is Some ==> {
                &&& row::decoded(r) matches Ok(clip)
                &&& Some(clip.id) == id
                &&& r.kind == "text"@ ==> clip.kind == ClipKind::Text
                &&& r.kind == "image"@ ==> clip.kind == ClipKind::Image
                &&& r.kind == "files"@ ==> clip.kind == ClipKind::Files
                &&& clip.title == r.title
                &&& clip.text == r.text_content
                &&& clip.html == r.html_content
                &&& clip.image_png == r.image_png
                &&& Some(clip.file_uris) == files
                &&& clip.pinned == r.pinned
                &&& Some((clip.created_at.seconds, clip.created_at.nanoseconds)) == created
                &&& Some((clip.last_used_at.seconds, clip.last_used_at.nanoseconds)) == used
            }
        }),
{
    reveal_strlit("text");
    reveal_strlit("image");
    reveal_strlit("files");
    assert("image"@[0] == 'i');
    assert("files"@[0] == 'f');
    assert("text"@[0] == 't');
}

// ---------------------------------------------------------------------------
// When captures succeed
// ---------------------------------------------------------------------------

/// A capture that is not right, or into a history whose limit cannot be read, or at a moment that
/// cannot be written, is refused for the first of these reasons, and changes nothing. Every capture
/// that is refused changes nothing.
pub proof fn wrong_captures_are_refused(
    before: HistoryView,
    after: HistoryView,
    r: Result<StoredClip, StoreError>,
    input: InputView,
    hash: Seq<char>,
    id: u128,
    now: UtcTime,
)
    requires
        history::is_capture(before, after, r, input, hash, id, now),
    ensures
        r is Err ==> after == before,
        after.limit == before.limit,
        store::input_error(input) matches Some(error) ==> r == Err::<StoredClip, StoreError>(error),
        store::input_error(input) is None ==> (store::limit_of(before.limit) matches Err(error) ==> r
            == Err::<StoredClip, StoreError>(error)),
        store::input_error(input) is None && store::limit_of(before.limit) is Ok && time::rfc3339(
            now.seconds,
            now.nanoseconds,
        ) is None ==> r == Err::<StoredClip, StoreError>(StoreError::InvalidTime),
{
}

/// A right capture of something that the history does not have is added, unless its title cannot be
/// stored, its identifier is taken, or as many unpinned clips as the limit says are more recent.
/// With it the limit is enforced: what goes was used before what stays.
pub proof fn new_captures_are_added(
    before: HistoryView,
    after: HistoryView,
    r: Result<StoredClip, StoreError>,
    input: InputView,
    hash: Seq<char>,
    id: u128,
    now: UtcTime,
    stamp: Seq<char>,
    limit: usize,
)
    requires
        before.wf(),
        history::is_capture(before, after, r, input, hash, id, now),
        store::input_error(input) is None,
        store::limit_of(before.limit) == Ok::<usize, StoreError>(limit),
        time::rfc3339(now.seconds, now.nanoseconds) == Some(stamp),
        forall|i: int| 0 <= i < before.rows.len() ==> (#[trigger] before.rows[i]).content_sha256 != hash,
    ensures
        ({
            let added = row::row_of(input, hash, id, stamp);
            let all = before.rows.push(added);
            let storable = row::is_storable_title(input.title());
            let taken = exists|i: int|
                0 <= i < before.rows.len() && (#[trigger] before.rows[i]).id == codec::uuid_text(id);
            let recent = before.rows.filter(
                |r: RowView|
                    !r.pinned && (order::text_before(stamp, r.last_used_at) || (stamp
                        == r.last_used_at && order::text_before(codec::uuid_text(id), r.id))),
            ).len() < limit;
            let n = all.filter(|r: RowView| !r.pinned).len();
            &&& !storable ==> r == Err::<StoredClip, StoreError>(StoreError::InvalidTitle)
            &&& storable && taken ==> r == Err::<StoredClip, StoreError>(StoreError::DuplicateId)
            &&& storable && !taken && !recent ==> r == Err::<StoredClip, StoreError>(
                StoreError::NotRetained,
            )
            &&& storable && !taken && recent ==> match row::decoded(added) {
                Err(error) => r == Err::<StoredClip, StoreError>(error),
                Ok(clip) => r matches Ok(stored) && stored@ == clip,
            }
            &&& r is Ok ==> {
                &&& after.rows.contains(added)
                &&& after.rows == all.filter(|r: RowView| after.rows.contains(r))
                &&& after.rows.filter(|r: RowView| r.pinned) == before.rows.filter(
                    |r: RowView| r.pinned,
                )
                &&& n == before.rows.filter(|r: RowView| !r.pinned).len() + 1
                &&& n <= limit ==> after.rows == all
                &&& after.rows.filter(|r: RowView| !r.pinned).len() == (if n <= limit {
                    n
                } else {
                    limit as nat
                })
                &&& forall|a: RowView, b: RowView|
                    #![trigger after.rows.contains(a), all.contains(b)]
                    after.rows.contains(a) && !a.pinned && all.contains(b) && !after.rows.contains(b)
                        ==> !b.pinned && (order::text_before(b.last_used_at, a.last_used_at) || (
                    b.last_used_at == a.last_used_at && order::text_before(b.id, a.id)))
            }
        }),
{
    let added = row::row_of(input, hash, id, stamp);
    let all = before.rows.push(added);
    let newer = |r: RowView|
        !r.pinned && (order::text_before(stamp, r.last_used_at) || (stamp == r.last_used_at
            && order::text_before(codec::uuid_text(id), r.id)));
    let counted = |r: RowView| !r.pinned && retention::more_recent(r, added);
    let free = |r: RowView| !r.pinned;
    let fixed = |r: RowView| r.pinned;
    assert(history::latest_match(before.rows, hash) is None) by {
        assert forall|i: int| !history::is_latest_match(before.rows, hash, i) by {}
    }
    assert(all.drop_last() =~= before.rows);
    assert(all.last() == added);
    reveal_with_fuel(Seq::filter, 2);
    order::texts_are_totally_ordered(stamp, stamp, stamp);
    order::texts_are_totally_ordered(added.id, added.id, added.id);
    limit_laws::lemma_count_filters(all, counted);
    assert(counted =~= newer);
    assert(all.filter(newer) == before.rows.filter(newer));
    assert(all.filter(fixed) == before.rows.filter(fixed));
    assert(all.filter(free) == before.rows.filter(free).push(added));
    assert(history::has_id(before.rows, codec::uuid_text(id)) <==> exists|i: int|
        0 <= i < before.rows.len() && (#[trigger] before.rows[i]).id == codec::uuid_text(id));
    if r is Ok {
        assert forall|i: int, j: int| 0 <= i < j < all.len() implies #[trigger] all[i].id
            != #[trigger] all[j].id by {
            if j == before.rows.len() {
                assert(before.rows[i].id != added.id);
            } else {
                assert(before.rows[i].id != before.rows[j].id);
            }
        }
        limit_laws::limits_leave_the_most_recent_rows(all, limit as nat);
        retention::lemma_filter_members(
            all,
            |r: RowView| retention::stays(all, limit as nat, r),
        );
        assert(all.contains(added)) by {
            assert(all[before.rows.len() as int] == added);
        }
    }
}

/// A right capture of something that the history has is not added. The clip with its hash that was
/// used last, and of several the one that came first, is used again: it has the new moment, and
/// nothing else of it changes. It is refused where as many unpinned clips as the limit says are more
/// recent than that.
pub proof fn repeated_captures_are_used_again(
    before: HistoryView,
    after: HistoryView,
    r: Result<StoredClip, StoreError>,
    input: InputView,
    hash: Seq<char>,
    id: u128,
    now: UtcTime,
    stamp: Seq<char>,
    limit: usize,
    k: int,
)
    requires
        before.wf(),
        history::is_capture(before, after, r, input, hash, id, now),
        store::input_error(input) is None,
        store::limit_of(before.limit) == Ok::<usize, StoreError>(limit),
        time::rfc3339(now.seconds, now.nanoseconds) == Some(stamp),
        0 <= k < before.rows.len(),
        before.rows[k].content_sha256 == hash,
        forall|j: int|
            0 <= j < before.rows.len() && j != k && (#[trigger] before.rows[j]).content_sha256 == hash
                ==> order::text_before(before.rows[j].last_used_at, before.rows[k].last_used_at) || (
            before.rows[j].last_used_at == before.rows[k].last_used_at && k < j),
    ensures
        ({
            let used = RowView { last_used_at: stamp, ..before.rows[k] };
            let all = before.rows.update(k, used);
            let recent = used.pinned || before.rows.filter(
                |r: RowView|
                    !r.pinned && r.id != used.id && (order::text_before(stamp, r.last_used_at) || (
                    stamp == r.last_used_at && order::text_before(used.id, r.id))),
            ).len() < limit;
            let n = before.rows.filter(|r: RowView| !r.pinned).len();
            &&& !recent ==> r == Err::<StoredClip, StoreError>(StoreError::NotRetained)
            &&& recent ==> match row::decoded(used) {
                Err(error) => r == Err::<StoredClip, StoreError>(error),
                Ok(clip) => r matches Ok(stored) && stored@ == clip,
            }
            &&& r is Ok ==> {
                &&& after.rows.contains(used)
                &&& after.rows == all.filter(|r: RowView| after.rows.contains(r))
                &&& after.rows.filter(|r: RowView| r.pinned) == all.filter(|r: RowView| r.pinned)
                &&& n <= limit ==> after.rows == all
                &&& after.rows.filter(|r: RowView| !r.pinned).len() == (if n <= limit {
                    n
                } else {
                    limit as nat
                })
                &&& forall|a: RowView, b: RowView|
                    #![trigger after.rows.contains(a), all.contains(b)]
                    after.rows.contains(a) && !a.pinned && all.contains(b) && !after.rows.contains(b)
                        ==> !b.pinned && (order::text_before(b.last_used_at, a.last_used_at) || (
                    b.last_used_at == a.last_used_at && order::text_before(b.id, a.id)))
            }
        }),
{
    let used = RowView { last_used_at: stamp, ..before.rows[k] };
    let all = before.rows.update(k, used);
    let old_newer = |r: RowView|
        !r.pinned && r.id != used.id && (order::text_before(stamp, r.last_used_at) || (stamp
            == r.last_used_at && order::text_before(used.id, r.id)));
    let counted = |r: RowView| !r.pinned && retention::more_recent(r, used);
    let free = |r: RowView| !r.pinned;
    assert(history::is_latest_match(before.rows, hash, k)) by {
        assert forall|j: int|
            0 <= j < before.rows.len() && (#[trigger] before.rows[j]).content_sha256
                == hash implies !order::text_before(
            before.rows[k].last_used_at,
            before.rows[j].last_used_at,
        ) && (j < k ==> order::text_before(before.rows[j].last_used_at, before.rows[k].last_used_at)) by {
            order::texts_are_totally_ordered(
                before.rows[k].last_used_at,
                before.rows[j].last_used_at,
                before.rows[k].last_used_at,
            );
        }
    }
    history::lemma_latest_match(before.rows, hash, k);
    assert(history::latest_match(before.rows, hash) == Some(k));
    // How many rows are more recent does not depend on the row itself.
    limit_laws::lemma_count_filters(all, counted);
    limit_laws::lemma_count_filters(before.rows, old_newer);
    limit_laws::lemma_count_filters(all, free);
    limit_laws::lemma_count_filters(before.rows, free);
    retention::recency_is_an_order(used, used, used);
    retention::lemma_count_remove(all, counted, k);
    retention::lemma_count_remove(before.rows, old_newer, k);
    retention::lemma_count_remove(all, free, k);
    retention::lemma_count_remove(before.rows, free, k);
    assert(all.remove(k) =~= before.rows.remove(k));
    let others = all.remove(k);
    assert forall|i: int| 0 <= i < others.len() implies counted(#[trigger] others[i]) == old_newer(
        others[i],
    ) by {
        let j = if i < k {
            i
        } else {
            i + 1
        };
        assert(others[i] == before.rows[j]);
        if j < k {
            assert(before.rows[j].id != before.rows[k].id);
        } else {
            assert(before.rows[k].id != before.rows[j].id);
        }
    }
    retention::lemma_count_same(others, counted, old_newer);
    if r is Ok {
        assert forall|i: int, j: int| 0 <= i < j < all.len() implies #[trigger] all[i].id
            != #[trigger] all[j].id by {
            assert(before.rows[i].id != before.rows[j].id);
        }
        limit_laws::limits_leave_the_most_recent_rows(all, limit as nat);
        retention::lemma_filter_members(
            all,
            |r: RowView| retention::stays(all, limit as nat, r),
        );
        assert(all.contains(used)) by {
            assert(all[k] == used);
        }
    }
}

/// A right capture succeeds where the limit can be read, the identifier is free, the title can be
/// stored, every clip can be read, and every unpinned one was last used before. What is new is
/// returned as it was captured; what was there is returned as it was, but for the moment.
pub proof fn right_captures_succeed(
    before: HistoryView,
    after: HistoryView,
    r: Result<StoredClip, StoreError>,
    input: InputView,
    hash: Seq<char>,
    id: u128,
    now: UtcTime,
)
    requires
        before.wf(),
        history::is_capture(before, after, r, input, hash, id, now),
        -62_167_219_200 <= now.seconds <= 253_402_300_799,
        now.nanoseconds < 1_000_000_000,
        store::input_error(input) is None,
        store::limit_of(before.limit) is Ok,
        row::is_storable_title(input.title()),
        forall|i: int|
            0 <= i < before.rows.len() ==> (#[trigger] before.rows[i]).id != codec::uuid_text(id),
        forall|i: int| 0 <= i < before.rows.len() ==> row::decoded(#[trigger] before.rows[i]) is Ok,
        forall|i: int|
            0 <= i < before.rows.len() && !(#[trigger] before.rows[i]).pinned ==> exists|then: UtcTime|
                {
                    &&& -62_167_219_200 <= then.seconds <= 253_402_300_799
                    &&& then.nanoseconds < 1_000_000_000
                    &&& then.seconds < now.seconds || (then.seconds == now.seconds
                        && then.nanoseconds < now.nanoseconds)
                    &&& #[trigger] time::rfc3339(then.seconds, then.nanoseconds) == Some(
                        before.rows[i].last_used_at,
                    )
                },
    ensures
        r is Ok,
        r matches Ok(clip) ==> {
            ||| clip@ == row::clip_of(input, id, now)
            ||| exists|i: int|
                0 <= i < before.rows.len() && (#[trigger] before.rows[i]).content_sha256 == hash
                    && (row::decoded(before.rows[i]) matches Ok(known) && clip@ == (ClipView {
                    last_used_at: now,
                    ..known
                }))
        },
        (forall|i: int|
            0 <= i < before.rows.len() ==> (#[trigger] before.rows[i]).content_sha256 != hash) ==> (
        r matches Ok(clip) && clip@ == row::clip_of(input, id, now)),
{
    assert(time::is_common_time(now));
    assert(before.used_before(now)) by {
        assert forall|i: int| 0 <= i < before.rows.len() && !(#[trigger] before.rows[i]).pinned implies
            time::is_earlier_stamp(before.rows[i].last_used_at, now) by {
            let then = choose|then: UtcTime|
                {
                    &&& -62_167_219_200 <= then.seconds <= 253_402_300_799
                    &&& then.nanoseconds < 1_000_000_000
                    &&& then.seconds < now.seconds || (then.seconds == now.seconds
                        && then.nanoseconds < now.nanoseconds)
                    &&& #[trigger] time::rfc3339(then.seconds, then.nanoseconds) == Some(
                        before.rows[i].last_used_at,
                    )
                };
            assert(time::is_common_time(then) && time::is_earlier(then, now));
        }
    }
    laws::lemma_latest_in_range(before.rows, hash);
    match history::latest_match(before.rows, hash) {
        None => {
            assert(before.accepts(input, id));
        },
        Some(i) => {
            assert(row::decoded(before.rows[i]) is Ok);
        },
    }
}

/// A PNG image of between 8 and 8 388 608 bytes is captured where the limit can be read, the
/// identifier is free, and every unpinned clip was last used before; where the history does not have
/// it, it comes back with the same bytes. A larger one is refused, whatever the history holds.
pub proof fn images_are_captured_up_to_their_size(
    before: HistoryView,
    after: HistoryView,
    r: Result<StoredClip, StoreError>,
    bytes: Seq<u8>,
    hash: Seq<char>,
    id: u128,
    now: UtcTime,
)
    requires
        before.wf(),
        history::is_capture(before, after, r, InputView::ImagePng { bytes }, hash, id, now),
        -62_167_219_200 <= now.seconds <= 253_402_300_799,
        now.nanoseconds < 1_000_000_000,
        bytes.len() >= 8,
        bytes[0] == 137 && bytes[1] == 80 && bytes[2] == 78 && bytes[3] == 71 && bytes[4] == 13
            && bytes[5] == 10 && bytes[6] == 26 && bytes[7] == 10,
        store::limit_of(before.limit) is Ok,
        forall|i: int|
            0 <= i < before.rows.len() ==> (#[trigger] before.rows[i]).id != codec::uuid_text(id),
        forall|i: int| 0 <= i < before.rows.len() ==> row::decoded(#[trigger] before.rows[i]) is Ok,
        forall|i: int|
            0 <= i < before.rows.len() && !(#[trigger] before.rows[i]).pinned ==> exists|then: UtcTime|
                {
                    &&& -62_167_219_200 <= then.seconds <= 253_402_300_799
                    &&& then.nanoseconds < 1_000_000_000
                    &&& then.seconds < now.seconds || (then.seconds == now.seconds
                        && then.nanoseconds < now.nanoseconds)
                    &&& #[trigger] time::rfc3339(then.seconds, then.nanoseconds) == Some(
                        before.rows[i].last_used_at,
                    )
                },
    ensures
        bytes.len() <= 8_388_608 ==> r is Ok,
        bytes.len() <= 8_388_608 && (forall|i: int|
            0 <= i < before.rows.len() ==> (#[trigger] before.rows[i]).content_sha256 != hash) ==> (
        r matches Ok(clip) && clip@.image_png == Some(bytes) && clip@.kind == ClipKind::Image
            && clip@.id == id && clip@.created_at == now && clip@.last_used_at == now),
        bytes.len() > 8_388_608 ==> r == Err::<StoredClip, StoreError>(StoreError::ImageSize) && after
            == before,
{
    let input = InputView::ImagePng { bytes };
    images_are_right_up_to_their_size(bytes);
    if bytes.len() <= 8_388_608 {
        reveal_strlit("Clipboard image");
        titles_are_storable_by_their_length(input.title());
        assert(input.title()[0] == 'C');
        right_captures_succeed(before, after, r, input, hash, id, now);
    }
}

/// A text that is not blank, has no zero character, and has at most 1 048 576 bytes with its HTML, is
/// captured where the limit can be read, the identifier is free, and every unpinned clip was last
/// used before.
pub proof fn texts_are_captured_up_to_their_size(
    before: HistoryView,
    after: HistoryView,
    r: Result<StoredClip, StoreError>,
    text: Seq<char>,
    html: Option<Seq<char>>,
    hash: Seq<char>,
    id: u128,
    now: UtcTime,
    w: int,
)
    requires
        before.wf(),
        history::is_capture(before, after, r, InputView::Text { text, html }, hash, id, now),
        -62_167_219_200 <= now.seconds <= 253_402_300_799,
        now.nanoseconds < 1_000_000_000,
        0 <= w < text.len() && !text::is_white_space(text[w]),
        forall|i: int| 0 <= i < text.len() ==> #[trigger] text[i] != '\0',
        vstd::utf8::encode_utf8(text).len() + (match html {
            Some(html) => vstd::utf8::encode_utf8(html).len(),
            None => 0,
        }) <= 1_048_576,
        store::limit_of(before.limit) is Ok,
        forall|i: int|
            0 <= i < before.rows.len() ==> (#[trigger] before.rows[i]).id != codec::uuid_text(id),
        forall|i: int| 0 <= i < before.rows.len() ==> row::decoded(#[trigger] before.rows[i]) is Ok,
        forall|i: int|
            0 <= i < before.rows.len() && !(#[trigger] before.rows[i]).pinned ==> exists|then: UtcTime|
                {
                    &&& -62_167_219_200 <= then.seconds <= 253_402_300_799
                    &&& then.nanoseconds < 1_000_000_000
                    &&& then.seconds < now.seconds || (then.seconds == now.seconds
                        && then.nanoseconds < now.nanoseconds)
                    &&& #[trigger] time::rfc3339(then.seconds, then.nanoseconds) == Some(
                        before.rows[i].last_used_at,
                    )
                },
    ensures
        r is Ok,
        (forall|i: int|
            0 <= i < before.rows.len() ==> (#[trigger] before.rows[i]).content_sha256 != hash) ==> (
        r matches Ok(clip) && clip@.text == Some(text) && clip@.html == html && clip@.kind
            == ClipKind::Text && clip@.id == id && clip@.created_at == now && clip@.last_used_at
            == now),
{
    let input = InputView::Text { text, html };
    texts_are_right_up_to_their_size(text, html);
    let first = text::before(text, '\n');
    let line = text::trimmed(first);
    text::parts_end_before_the_first_occurrence(text, '\n');
    let bounds = text::trimming_takes_white_space_from_both_ends(first);
    reveal_strlit("Text clip");
    titles_are_storable_by_their_length(input.title());
    assert(input.title()[0] != '\0') by {
        if line.len() > 0 {
            assert(input.title()[0] == line[0]);
            assert(line[0] == first[bounds.0]);
            assert(first[bounds.0] == text[bounds.0]);
        } else {
            assert(input.title()[0] == 'T');
        }
    }
    right_captures_succeed(before, after, r, input, hash, id, now);
}

// ---------------------------------------------------------------------------
// Pinning
// ---------------------------------------------------------------------------

/// Pinning and unpinning succeed exactly where a clip has the identifier, and change its flag and
/// nothing else.
pub proof fn pinning_sets_the_flag_of_one_clip(view: HistoryView, id: u128, pinned: bool)
    ensures
        (forall|i: int| 0 <= i < view.rows.len() ==> (#[trigger] view.rows[i]).id != codec::uuid_text(id))
            ==> view.pinning(id, pinned) == Err::<HistoryView, StoreError>(StoreError::MissingClip),
        (exists|i: int| 0 <= i < view.rows.len() && (#[trigger] view.rows[i]).id == codec::uuid_text(id))
            ==> {
            &&& view.pinning(id, pinned) matches Ok(next)
            &&& next.limit == view.limit
            &&& next.rows.len() == view.rows.len()
            &&& forall|i: int|
                0 <= i < view.rows.len() ==> #[trigger] next.rows[i] == (if view.rows[i].id
                    == codec::uuid_text(id) {
                    RowView { pinned, ..view.rows[i] }
                } else {
                    view.rows[i]
                })
        },
{
}

/// Every refusal of the history has its sentence.
pub proof fn store_errors_have_their_sentences(error: StoreError)
    ensures
        error.message_text()@ == (match error {
            StoreError::LimitOutOfRange => "history limit must be between 1 and 100000"@,
            StoreError::LimitNotNumeric => "history limit is not numeric"@,
            StoreError::EmptyText => "text clip may not be empty"@,
            StoreError::TextTooLarge => "text clip exceeds the byte limit"@,
            StoreError::ImageSize => "image clip is empty or exceeds the byte limit"@,
            StoreError::NotPng => "image clip is not a PNG"@,
            StoreError::FileCount => "file clip is empty or exceeds the file-count limit"@,
            StoreError::InvalidUri => "file clip contains an invalid URI"@,
            StoreError::InvalidTitle => "clip title must have between 1 and 512 characters"@,
            StoreError::InvalidTime => "clip time cannot be written"@,
            StoreError::DuplicateId => "clip identifier is already taken"@,
            StoreError::NotRetained => "clip is older than the history that is kept"@,
            StoreError::MissingClip => "clip does not exist"@,
            StoreError::IndexFailed => "local index could not be searched"@,
            StoreError::InvalidColumn { .. } => "stored clip cannot be read"@,
        }),
{
}

/// A row that can be read is given as its clip, and otherwise what cannot be read is reported.
pub proof fn rows_are_given_as_they_are_read(
    r: Result<StoredClip, StoreError>,
    expected: Result<ClipView, StoreError>,
)
    requires
        row::is_decoded(r, expected),
    ensures
        r is Ok <==> expected is Ok,
        r matches Ok(clip) ==> expected == Ok::<ClipView, StoreError>(clip@),
        r matches Err(e) ==> expected == Err::<ClipView, StoreError>(e),
{
}

} // verus!
