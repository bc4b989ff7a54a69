//! Clips: what is captured and what is stored.

use crate::text;
use vstd::prelude::*;

verus! {

/// The longest title of a text clip, without the ellipsis.
pub const MAX_TITLE_CHARS: usize = 72;

/// What a clip holds.
#[derive(Clone, Copy, Debug, PartialEq, Eq, Structural)]
pub enum ClipKind {
    Text,
    Image,
    Files,
}

impl ClipKind {
    /// The name of the kind.
    pub open spec fn name(self) -> &'static str {
        match self {
            ClipKind::Text => "text",
            ClipKind::Image => "image",
            ClipKind::Files => "files",
        }
    }

    /// The kind of a name.
    pub open spec fn of_name(value: Seq<char>) -> Option<ClipKind> {
        if value == "text"@ {
            Some(ClipKind::Text)
        } else if value == "image"@ {
            Some(ClipKind::Image)
        } else if value == "files"@ {
            Some(ClipKind::Files)
        } else {
            None
        }
    }

    /// The name of the kind.
    pub fn as_str(self) -> (s: &'static str)
        ensures
            s@ == self.name()@,
    {
        match self {
            ClipKind::Text => "text",
            ClipKind::Image => "image",
            ClipKind::Files => "files",
        }
    }

    /// The kind of a name.
    pub fn parse(value: &str) -> (r: Option<Self>)
        ensures
            r == ClipKind::of_name(value@),
    {
        if text::same_text(value, "text") {
            Some(ClipKind::Text)
        } else if text::same_text(value, "image") {
            Some(ClipKind::Image)
        } else if text::same_text(value, "files") {
            Some(ClipKind::Files)
        } else {
            None
        }
    }
}

/// Names are read back as the kinds that they name, and nothing else is read.
pub proof fn kind_names_are_read_back(kind: ClipKind, value: Seq<char>)
    ensures
        ClipKind::of_name(kind.name()@) == Some(kind),
        ClipKind::of_name(value) == Some(kind) ==> value == kind.name()@,
{
    reveal_strlit("text");
    reveal_strlit("image");
    reveal_strlit("files");
    assert("image"@[0] == 'i');
    assert("files"@[0] == 'f');
}

/// A clip as it is captured.
#[derive(Clone, Debug, PartialEq, Eq)]
pub enum ClipInput {
    Text { text: String, html: Option<String> },
    ImagePng { bytes: Vec<u8> },
    Files { uris: Vec<String> },
}

/// The contents of a captured clip.
pub enum InputView {
    Text { text: Seq<char>, html: Option<Seq<char>> },
    ImagePng { bytes: Seq<u8> },
    Files { uris: Seq<Seq<char>> },
}

/// The contents of a text that may be missing.
pub open spec fn optional_text(value: Option<String>) -> Option<Seq<char>> {
    match value {
        Some(s) => Some(s@),
        None => None,
    }
}

/// The contents of a byte string that may be missing.
pub open spec fn optional_bytes(value: Option<Vec<u8>>) -> Option<Seq<u8>> {
    match value {
        Some(bytes) => Some(bytes@),
        None => None,
    }
}

impl View for ClipInput {
    type V = InputView;

    open spec fn view(&self) -> InputView {
        match self {
            ClipInput::Text { text, html } => InputView::Text {
                text: text@,
                html: optional_text(*html),
            },
            ClipInput::ImagePng { bytes } => InputView::ImagePng { bytes: bytes@ },
            ClipInput::Files { uris } => InputView::Files { uris: text::texts(uris@) },
        }
    }
}

/// The first characters of a text, with an ellipsis where something was cut off.
pub open spec fn shortened(value: Seq<char>, max: nat) -> Seq<char> {
    if value.len() > max {
        value.take(max as int).push('\u{2026}')
    } else {
        value
    }
}

/// What stands after the last slash or backslash.
pub open spec fn last_part(s: Seq<char>) -> Seq<char>
    decreases s.len(),
{
    if s.len() == 0 || s.last() == '/' || s.last() == '\\' {
        seq![]
    } else {
        last_part(s.drop_last()).push(s.last())
    }
}

impl InputView {
    /// What the clip holds.
    pub open spec fn kind(self) -> ClipKind {
        match self {
            InputView::Text { .. } => ClipKind::Text,
            InputView::ImagePng { .. } => ClipKind::Image,
            InputView::Files { .. } => ClipKind::Files,
        }
    }

    /// The title: the first line of a text, the name of a file, or a count of files.
    pub open spec fn title(self) -> Seq<char> {
        match self {
            InputView::Text { text, .. } => {
                let first = text::trimmed(text::before(text, '\n'));
                shortened(
                    if first.len() == 0 {
                        "Text clip"@
                    } else {
                        first
                    },
                    MAX_TITLE_CHARS as nat,
                )
            },
            InputView::ImagePng { .. } => "Clipboard image"@,
            InputView::Files { uris } => if uris.len() == 1 {
                last_part(uris[0])
            } else {
                text::decimal(uris.len()) + " files"@
            },
        }
    }

    /// The text in which the clip is found.
    pub open spec fn search_text(self) -> Seq<char> {
        match self {
            InputView::Text { text, .. } => text,
            InputView::ImagePng { .. } => seq![],
            InputView::Files { uris } => text::joined(uris, " "@),
        }
    }
}

impl ClipInput {
    /// What the clip holds.
    pub fn kind(&self) -> (k: ClipKind)
        ensures
            k == self@.kind(),
    {
        match self {
            ClipInput::Text { .. } => ClipKind::Text,
            ClipInput::ImagePng { .. } => ClipKind::Image,
            ClipInput::Files { .. } => ClipKind::Files,
        }
    }

    /// The title: the first line of a text, the name of a file, or a count of files.
    pub fn title(&self) -> (s: String)
        ensures
            s@ == self@.title(),
    {
        match self {
            ClipInput::Text { text, .. } => {
                let chars = text::to_chars(text.as_str());
                let n: usize = text::length_before(chars.as_slice(), '\n');
                let line = vstd::slice::slice_subrange(chars.as_slice(), 0, n);
                assert(line@ =~= text::before(text@, '\n'));
                let (from, to) = text::trim_bounds(line);
                if from == to {
                    truncate_chars("Text clip", MAX_TITLE_CHARS)
                } else {
                    let first = text::chars_between(line, from, to);
                    truncate_chars(first.as_str(), MAX_TITLE_CHARS)
                }
            },
            ClipInput::ImagePng { .. } => "Clipboard image".to_owned(),
            ClipInput::Files { uris } => {
                if uris.len() == 1 {
                    let s = after_separator(uris[0].as_str());
                    assert(text::texts(uris@)[0] == uris@[0]@);
                    s
                } else {
                    let mut s = text::decimal_text(uris.len() as u64);
                    s.append(" files");
                    s
                }
            },
        }
    }

    /// The text in which the clip is found.
    pub fn search_text(&self) -> (s: String)
        ensures
            s@ == self@.search_text(),
    {
        match self {
            ClipInput::Text { text, .. } => text.clone(),
            ClipInput::ImagePng { .. } => String::new(),
            ClipInput::Files { uris } => text::join(uris.as_slice(), " "),
        }
    }
}

/// The first characters of a text, with an ellipsis where something was cut off.
fn truncate_chars(value: &str, max: usize) -> (s: String)
    ensures
        s@ == shortened(value@, max as nat),
{
    let chars = text::to_chars(value);
    if chars.len() > max {
        let mut s = text::chars_between(chars.as_slice(), 0, max);
        s.push('\u{2026}');
        assert(s@ =~= shortened(value@, max as nat));
        s
    } else {
        let s = text::chars_between(chars.as_slice(), 0, chars.len());
        assert(s@ =~= value@);
        s
    }
}

/// What stands after the last slash or backslash.
fn after_separator(value: &str) -> (s: String)
    ensures
        s@ == last_part(value@),
{
    let chars = text::to_chars(value);
    let mut from: usize = chars.len();
    while from > 0 && chars[from - 1] != '/' && chars[from - 1] != '\\'
        invariant
            from <= chars@.len(),
            forall|i: int| from <= i < chars@.len() ==> #[trigger] chars@[i] != '/' && chars@[i] != '\\',
        decreases from,
    {
        from = from - 1;
    }
    proof {
        lemma_last_part(chars@, from as int);
    }
    text::chars_between(chars.as_slice(), from, chars.len())
}

proof fn lemma_last_part(s: Seq<char>, from: int)
    requires
        0 <= from <= s.len(),
        forall|i: int| from <= i < s.len() ==> #[trigger] s[i] != '/' && s[i] != '\\',
        from > 0 ==> s[from - 1] == '/' || s[from - 1] == '\\',
    ensures
        last_part(s) == s.subrange(from, s.len() as int),
    decreases s.len(),
{
    if from < s.len() {
        let rest = s.drop_last();
        assert forall|i: int| from <= i < rest.len() implies #[trigger] rest[i] != '/' && rest[i]
            != '\\' by {
            assert(rest[i] == s[i]);
        }
        lemma_last_part(rest, from);
    }
    assert(last_part(s) =~= s.subrange(from, s.len() as int));
}

/// The title of a text or an image has between 1 and 73 characters.
pub proof fn titles_are_bounded(input: InputView)
    requires
        !(input is Files),
    ensures
        1 <= input.title().len() <= MAX_TITLE_CHARS + 1,
{
    reveal_strlit("Text clip");
    reveal_strlit("Clipboard image");
}

/// A moment: seconds since 1970 in UTC, and nanoseconds.
#[derive(Clone, Copy, Debug, PartialEq, Eq, Structural)]
pub struct UtcTime {
    pub seconds: i64,
    pub nanoseconds: u32,
}

/// A clip as it is stored.
#[derive(Clone, Debug, PartialEq, Eq)]
pub struct StoredClip {
    pub id: u128,
    pub kind: ClipKind,
    pub title: String,
    pub text: Option<String>,
    pub html: Option<String>,
    pub image_png: Option<Vec<u8>>,
    pub file_uris: Vec<String>,
    pub pinned: bool,
    pub created_at: UtcTime,
    pub last_used_at: UtcTime,
}

/// The contents of a stored clip.
#[verifier::ext_equal]
pub struct ClipView {
    pub id: u128,
    pub kind: ClipKind,
    pub title: Seq<char>,
    pub text: Option<Seq<char>>,
    pub html: Option<Seq<char>>,
    pub image_png: Option<Seq<u8>>,
    pub file_uris: Seq<Seq<char>>,
    pub pinned: bool,
    pub created_at: UtcTime,
    pub last_used_at: UtcTime,
}

impl View for StoredClip {
    type V = ClipView;

    open spec fn view(&self) -> ClipView {
        ClipView {
            id: self.id,
            kind: self.kind,
            title: self.title@,
            text: optional_text(self.text),
            html: optional_text(self.html),
            image_png: optional_bytes(self.image_png),
            file_uris: text::texts(self.file_uris@),
            pinned: self.pinned,
            created_at: self.created_at,
            last_used_at: self.last_used_at,
        }
    }
}

impl ClipView {
    /// The text in which the clip is found: its own, or else its files.
    pub open spec fn search_text(self) -> Seq<char> {
        match self.text {
            Some(text) => text,
            None => text::joined(self.file_uris, " "@),
        }
    }
}

impl StoredClip {
    /// The text in which the clip is found: its own, or else its files.
    pub fn search_text(&self) -> (s: String)
        ensures
            s@ == self@.search_text(),
    {
        match &self.text {
            Some(text) => text.clone(),
            None => text::join(self.file_uris.as_slice(), " "),
        }
    }
}

// ---------------------------------------------------------------------------
// Titles
// ---------------------------------------------------------------------------

/// A text is shortened exactly where it has more characters than allowed: then as many of the first
/// ones stay, and an ellipsis says so.
pub proof fn long_texts_end_in_an_ellipsis(value: Seq<char>, max: nat)
    ensures
        value.len() <= max ==> shortened(value, max) == value,
        value.len() > max ==> shortened(value, max).len() == max + 1 && shortened(value, max).last()
            == '\u{2026}' && shortened(value, max).subrange(0, max as int) == value.subrange(
            0,
            max as int,
        ),
{
    if value.len() > max {
        assert(shortened(value, max).subrange(0, max as int) =~= value.subrange(0, max as int));
    }
}

/// The last part of a path has neither slash nor backslash, and stands behind the last of them, or is
/// the whole path.
pub proof fn last_parts_stand_behind_the_last_separator(s: Seq<char>)
    ensures
        ({
            let n = last_part(s).len() as int;
            &&& n <= s.len()
            &&& last_part(s) == s.subrange(s.len() - n, s.len() as int)
            &&& forall|i: int|
                s.len() - n <= i < s.len() ==> #[trigger] s[i] != '/' && s[i] != '\\'
            &&& n < s.len() ==> s[s.len() - n - 1] == '/' || s[s.len() - n - 1] == '\\'
        }),
    decreases s.len(),
{
    if s.len() == 0 || s.last() == '/' || s.last() == '\\' {
        assert(last_part(s) =~= s.subrange(s.len() as int, s.len() as int));
    } else {
        let rest = s.drop_last();
        last_parts_stand_behind_the_last_separator(rest);
        let n = last_part(rest).len() as int;
        assert forall|i: int| s.len() - n - 1 <= i < s.len() implies #[trigger] s[i] != '/' && s[i]
            != '\\' by {
            if i < rest.len() {
                assert(rest[i] == s[i]);
            }
        }
        lemma_last_part(s, s.len() - n - 1);
    }
}

/// The title of a text is its first line without the white space around it, up to 72 characters; that
/// of an image is fixed; that of one file is its name; and that of several says how many they are.
pub proof fn titles_say_what_a_clip_is(input: InputView)
    ensures
        input matches InputView::Text { text, .. } ==> {
            let line = text::trimmed(text::before(text, '\n'));
            &&& line.len() == 0 ==> input.title() == "Text clip"@
            &&& 0 < line.len() <= 72 ==> input.title() == line
            &&& line.len() > 72 ==> input.title() == line.subrange(0, 72).push('\u{2026}')
        },
        input is ImagePng ==> input.title() == "Clipboard image"@,
        input matches InputView::Files { uris } ==> {
            &&& uris.len() == 1 ==> input.title() == last_part(uris[0])
            &&& uris.len() != 1 ==> input.title() == text::decimal(uris.len()) + " files"@
        },
{
    reveal_strlit("Text clip");
    match input {
        InputView::Text { text, .. } => {
            let line = text::trimmed(text::before(text, '\n'));
            if line.len() > 72 {
                assert(line.take(72) =~= line.subrange(0, 72));
            }
        },
        _ => {},
    }
}

/// A text is found in itself, an image in nothing, and files in their names, one behind the other. So
/// are the clips that are stored.
pub proof fn clips_are_found_in_their_text(input: InputView, clip: ClipView)
    ensures
        input matches InputView::Text { text, .. } ==> input.search_text() == text && input.kind()
            == ClipKind::Text,
        input is ImagePng ==> input.search_text().len() == 0 && input.kind() == ClipKind::Image,
        input matches InputView::Files { uris } ==> input.search_text() == text::joined(
            uris,
            seq![' '],
        ) && input.kind() == ClipKind::Files,
        clip.text matches Some(text) ==> clip.search_text() == text,
        clip.text is None ==> clip.search_text() == text::joined(clip.file_uris, seq![' ']),
        ClipKind::Text.name()@ == "text"@ && ClipKind::Image.name()@ == "image"@
            && ClipKind::Files.name()@ == "files"@,
{
    reveal_strlit(" ");
    assert(" "@ =~= seq![' ']);
}

} // verus!
