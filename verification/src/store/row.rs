//! Rows: how a clip is written down and read back.

use crate::model::{self, ClipInput, ClipKind, ClipView, InputView, StoredClip, UtcTime};
use crate::store::StoreError;
use crate::{codec, json, text, time};
use vstd::prelude::*;

verus! {

/// The longest title that is stored.
pub const MAX_STORED_TITLE_CHARS: usize = 512;

/// A clip as it is written down.
#[derive(Clone, Debug, PartialEq, Eq)]
pub struct ClipRow {
    pub id: String,
    pub kind: String,
    pub title: String,
    pub text_content: Option<String>,
    pub html_content: Option<String>,
    pub image_png: Option<Vec<u8>>,
    pub file_uris_json: String,
    pub content_sha256: String,
    pub pinned: bool,
    pub created_at: String,
    pub last_used_at: String,
    /// Whether a vector is stored with the clip.
    pub embedded: bool,
}

/// The contents of a row.
#[verifier::ext_equal]
pub struct RowView {
    pub id: Seq<char>,
    pub kind: Seq<char>,
    pub title: Seq<char>,
    pub text_content: Option<Seq<char>>,
    pub html_content: Option<Seq<char>>,
    pub image_png: Option<Seq<u8>>,
    pub file_uris_json: Seq<char>,
    pub content_sha256: Seq<char>,
    pub pinned: bool,
    pub created_at: Seq<char>,
    pub last_used_at: Seq<char>,
    pub embedded: bool,
}

impl View for ClipRow {
    type V = RowView;

    open spec fn view(&self) -> RowView {
        RowView {
            id: self.id@,
            kind: self.kind@,
            title: self.title@,
            text_content: model::optional_text(self.text_content),
            html_content: model::optional_text(self.html_content),
            image_png: model::optional_bytes(self.image_png),
            file_uris_json: self.file_uris_json@,
            content_sha256: self.content_sha256@,
            pinned: self.pinned,
            created_at: self.created_at@,
            last_used_at: self.last_used_at@,
            embedded: self.embedded,
        }
    }
}

/// The contents of rows.
pub open spec fn row_views(rows: Seq<ClipRow>) -> Seq<RowView> {
    rows.map_values(|row: ClipRow| row@)
}

/// Whether a title can be stored: up to the first zero character it has between 1 and 512.
pub open spec fn is_storable_title(title: Seq<char>) -> bool {
    1 <= text::before(title, '\0').len() <= MAX_STORED_TITLE_CHARS
}

/// Whether a title can be stored.
pub fn storable_title(title: &str) -> (r: bool)
    ensures
        r == is_storable_title(title@),
{
    let chars = text::to_chars(title);
    let n: usize = text::length_before(chars.as_slice(), '\0');
    assert(chars@.take(n as int).len() == n);
    1 <= n && n <= MAX_STORED_TITLE_CHARS
}

/// The files of a captured clip.
pub open spec fn files_of(input: InputView) -> Seq<Seq<char>> {
    match input {
        InputView::Files { uris } => uris,
        _ => seq![],
    }
}

/// The row of a clip that was captured at a moment.
pub open spec fn row_of(input: InputView, hash: Seq<char>, id: u128, stamp: Seq<char>) -> RowView {
    RowView {
        id: codec::uuid_text(id),
        kind: input.kind().name()@,
        title: input.title(),
        text_content: match input {
            InputView::Text { text, .. } => Some(text),
            _ => None,
        },
        html_content: match input {
            InputView::Text { html, .. } => html,
            _ => None,
        },
        image_png: match input {
            InputView::ImagePng { bytes } => Some(bytes),
            _ => None,
        },
        file_uris_json: json::json_array(files_of(input)),
        content_sha256: hash,
        pinned: false,
        created_at: stamp,
        last_used_at: stamp,
        embedded: !text::is_blank(input.search_text()),
    }
}

/// The moment that a stored text stands for.
pub open spec fn time_of(stamp: Seq<char>) -> Option<UtcTime> {
    match time::rfc3339_time(stamp) {
        Some((seconds, nanoseconds)) => Some(UtcTime { seconds, nanoseconds }),
        None => None,
    }
}

/// The clip of a row, or the first column that cannot be read.
pub open spec fn decoded(row: RowView) -> Result<ClipView, StoreError> {
    match codec::uuid_of(row.id) {
        None => Err(StoreError::InvalidColumn { column: 0 }),
        Some(id) => match ClipKind::of_name(row.kind) {
            None => Err(StoreError::InvalidColumn { column: 1 }),
            Some(kind) => match json::json_list(row.file_uris_json) {
                None => Err(StoreError::InvalidColumn { column: 6 }),
                Some(file_uris) => match time_of(row.created_at) {
                    None => Err(StoreError::InvalidColumn { column: 8 }),
                    Some(created_at) => match time_of(row.last_used_at) {
                        None => Err(StoreError::InvalidColumn { column: 9 }),
                        Some(last_used_at) => Ok(
                            ClipView {
                                id,
                                kind,
                                title: row.title,
                                text: row.text_content,
                                html: row.html_content,
                                image_png: row.image_png,
                                file_uris,
                                pinned: row.pinned,
                                created_at,
                                last_used_at,
                            },
                        ),
                    },
                },
            },
        },
    }
}

/// Whether a result is the decoded row.
pub open spec fn is_decoded(
    r: Result<StoredClip, StoreError>,
    expected: Result<ClipView, StoreError>,
) -> bool {
    match expected {
        Ok(view) => r matches Ok(clip) && clip@ == view,
        Err(error) => r matches Err(e) && e == error,
    }
}

/// A copy of a text that may be missing.
fn copy_text(value: &Option<String>) -> (r: Option<String>)
    ensures
        model::optional_text(r) == model::optional_text(*value),
{
    match value {
        Some(s) => Some(s.clone()),
        None => None,
    }
}

/// A copy of a byte string that may be missing.
fn copy_bytes(value: &Option<Vec<u8>>) -> (r: Option<Vec<u8>>)
    ensures
        model::optional_bytes(r) == model::optional_bytes(*value),
{
    match value {
        Some(bytes) => {
            let mut copy: Vec<u8> = Vec::new();
            text::append_bytes(&mut copy, bytes.as_slice());
            assert(copy@ =~= bytes@);
            Some(copy)
        },
        None => None,
    }
}

impl ClipRow {
    /// A copy of the row.
    pub fn copy(&self) -> (row: ClipRow)
        ensures
            row@ == self@,
    {
        ClipRow {
            id: self.id.clone(),
            kind: self.kind.clone(),
            title: self.title.clone(),
            text_content: copy_text(&self.text_content),
            html_content: copy_text(&self.html_content),
            image_png: copy_bytes(&self.image_png),
            file_uris_json: self.file_uris_json.clone(),
            content_sha256: self.content_sha256.clone(),
            pinned: self.pinned,
            created_at: self.created_at.clone(),
            last_used_at: self.last_used_at.clone(),
            embedded: self.embedded,
        }
    }
}

/// The row of a clip that was captured at a moment. The file list can be read back.
pub fn encode_clip(input: &ClipInput, hash: String, id: u128, stamp: &str) -> (row: ClipRow)
    ensures
        row@ == row_of(input@, hash@, id, stamp@),
        json::json_list(row@.file_uris_json) == Some(files_of(input@)),
{
    let search_text = input.search_text();
    let (text_content, html_content, image_png, files) = match input {
        ClipInput::Text { text, html } => (
            Some(text.clone()),
            copy_text(html),
            None,
            file_list(Vec::<String>::new().as_slice()),
        ),
        ClipInput::ImagePng { bytes } => {
            let mut copy: Vec<u8> = Vec::new();
            text::append_bytes(&mut copy, bytes.as_slice());
            assert(copy@ =~= bytes@);
            (None, None, Some(copy), file_list(Vec::<String>::new().as_slice()))
        },
        ClipInput::Files { uris } => (None, None, None, file_list(uris.as_slice())),
    };
    assert(files@ == json::json_array(files_of(input@)));
    ClipRow {
        id: codec::format_uuid(id),
        kind: input.kind().as_str().to_owned(),
        title: input.title(),
        text_content,
        html_content,
        image_png,
        file_uris_json: files,
        content_sha256: hash,
        pinned: false,
        created_at: stamp.to_owned(),
        last_used_at: stamp.to_owned(),
        embedded: !text::blank(search_text.as_str()),
    }
}

/// A list of files as it is written down.
fn file_list(uris: &[String]) -> (s: String)
    ensures
        s@ == json::json_array(text::texts(uris@)),
        json::json_list(s@) == Some(text::texts(uris@)),
        uris@.len() == 0 ==> text::texts(uris@) == Seq::<Seq<char>>::empty(),
{
    if uris.len() == 0 {
        assert(text::texts(uris@) =~= Seq::empty());
    }
    match json::json_write_list(uris) {
        Ok(s) => s,
        Err(_) => {
            assert(false);
            String::new()
        },
    }
}

/// The clip of a row, or the first column that cannot be read.
pub fn decode_clip(row: &ClipRow) -> (r: Result<StoredClip, StoreError>)
    ensures
        is_decoded(r, decoded(row@)),
{
    let id: u128 = match codec::read_uuid(row.id.as_str()) {
        Some(id) => id,
        None => {
            return Err(StoreError::InvalidColumn { column: 0 });
        },
    };
    let kind = match ClipKind::parse(row.kind.as_str()) {
        Some(kind) => kind,
        None => {
            return Err(StoreError::InvalidColumn { column: 1 });
        },
    };
    let file_uris = match json::json_read_list(row.file_uris_json.as_str()) {
        Ok(list) => list,
        Err(_) => {
            return Err(StoreError::InvalidColumn { column: 6 });
        },
    };
    let created_at = match time::parse_time(row.created_at.as_str()) {
        Ok(moment) => moment,
        Err(_) => {
            return Err(StoreError::InvalidColumn { column: 8 });
        },
    };
    let last_used_at = match time::parse_time(row.last_used_at.as_str()) {
        Ok(moment) => moment,
        Err(_) => {
            return Err(StoreError::InvalidColumn { column: 9 });
        },
    };
    Ok(
        StoredClip {
            id,
            kind,
            title: row.title.clone(),
            text: copy_text(&row.text_content),
            html: copy_text(&row.html_content),
            image_png: copy_bytes(&row.image_png),
            file_uris,
            pinned: row.pinned,
            created_at,
            last_used_at,
        },
    )
}

/// The clip that was captured at a moment.
pub open spec fn clip_of(input: InputView, id: u128, now: UtcTime) -> ClipView {
    ClipView {
        id,
        kind: input.kind(),
        title: input.title(),
        text: match input {
            InputView::Text { text, .. } => Some(text),
            _ => None,
        },
        html: match input {
            InputView::Text { html, .. } => html,
            _ => None,
        },
        image_png: match input {
            InputView::ImagePng { bytes } => Some(bytes),
            _ => None,
        },
        file_uris: files_of(input),
        pinned: false,
        created_at: now,
        last_used_at: now,
    }
}

/// A stored clip is found in the text in which it was captured.
pub proof fn stored_clips_keep_their_search_text(input: InputView, id: u128, now: UtcTime)
    ensures
        clip_of(input, id, now).search_text() == input.search_text(),
{
}

/// What is written down is read back, given that the moment and the file list are.
pub proof fn written_rows_are_read_back(
    input: InputView,
    hash: Seq<char>,
    id: u128,
    now: UtcTime,
    stamp: Seq<char>,
)
    requires
        time_of(stamp) == Some(now),
        json::json_list(json::json_array(files_of(input))) == Some(files_of(input)),
    ensures
        decoded(row_of(input, hash, id, stamp)) == Ok::<ClipView, StoreError>(
            clip_of(input, id, now),
        ),
{
    codec::uuid_texts_are_read_back(id);
    model::kind_names_are_read_back(input.kind(), input.kind().name()@);
}

} // verus!
