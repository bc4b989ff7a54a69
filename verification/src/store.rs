//! The clipboard history: its limits, its rows, and what every operation keeps.

use crate::model::{ClipInput, InputView};
use crate::text::{self, TokenClass};
use crate::{codec, crypto};
use vstd::prelude::*;

pub mod capture_laws;
pub mod changes;
pub mod history;
pub mod laws;
pub mod limit_laws;
pub mod retention;
pub mod row;
pub mod search;
pub mod search_laws;

pub use changes::{RowChanges, RowStamp};
pub use history::HistoryStore;
pub use row::ClipRow;
pub use search::{SearchHit, SearchMatch};

verus! {

/// The number of unpinned clips that are kept at first.
pub const DEFAULT_HISTORY_LIMIT: usize = 500;

/// The smallest limit.
pub const MIN_HISTORY_LIMIT: usize = 1;

/// The largest limit.
pub const MAX_HISTORY_LIMIT: usize = 100_000;

/// The largest text clip, its HTML included.
pub const MAX_TEXT_BYTES: usize = 1_048_576;

/// The largest image clip.
pub const MAX_IMAGE_BYTES: usize = 8_388_608;

/// The longest file clip.
pub const MAX_FILES: usize = 128;

/// The longest file URI.
pub const MAX_URI_BYTES: usize = 4096;

/// Why an operation on the history is refused.
#[derive(Clone, Copy, Debug, PartialEq, Eq, Structural)]
pub enum StoreError {
    LimitOutOfRange,
    LimitNotNumeric,
    EmptyText,
    TextTooLarge,
    ImageSize,
    NotPng,
    FileCount,
    InvalidUri,
    InvalidTitle,
    InvalidTime,
    DuplicateId,
    NotRetained,
    MissingClip,
    IndexFailed,
    InvalidColumn { column: usize },
}

impl StoreError {
    /// The sentence that is shown to the user.
    pub open spec fn message_text(self) -> &'static str {
        match self {
            StoreError::LimitOutOfRange => "history limit must be between 1 and 100000",
            StoreError::LimitNotNumeric => "history limit is not numeric",
            StoreError::EmptyText => "text clip may not be empty",
            StoreError::TextTooLarge => "text clip exceeds the byte limit",
            StoreError::ImageSize => "image clip is empty or exceeds the byte limit",
            StoreError::NotPng => "image clip is not a PNG",
            StoreError::FileCount => "file clip is empty or exceeds the file-count limit",
            StoreError::InvalidUri => "file clip contains an invalid URI",
            StoreError::InvalidTitle => "clip title must have between 1 and 512 characters",
            StoreError::InvalidTime => "clip time cannot be written",
            StoreError::DuplicateId => "clip identifier is already taken",
            StoreError::NotRetained => "clip is older than the history that is kept",
            StoreError::MissingClip => "clip does not exist",
            StoreError::IndexFailed => "local index could not be searched",
            StoreError::InvalidColumn { .. } => "stored clip cannot be read",
        }
    }

    /// The sentence that is shown to the user.
    pub fn message(&self) -> (s: &'static str)
        ensures
            s@ == self.message_text()@,
    {
        match self {
            StoreError::LimitOutOfRange => "history limit must be between 1 and 100000",
            StoreError::LimitNotNumeric => "history limit is not numeric",
            StoreError::EmptyText => "text clip may not be empty",
            StoreError::TextTooLarge => "text clip exceeds the byte limit",
            StoreError::ImageSize => "image clip is empty or exceeds the byte limit",
            StoreError::NotPng => "image clip is not a PNG",
            StoreError::FileCount => "file clip is empty or exceeds the file-count limit",
            StoreError::InvalidUri => "file clip contains an invalid URI",
            StoreError::InvalidTitle => "clip title must have between 1 and 512 characters",
            StoreError::InvalidTime => "clip time cannot be written",
            StoreError::DuplicateId => "clip identifier is already taken",
            StoreError::NotRetained => "clip is older than the history that is kept",
            StoreError::MissingClip => "clip does not exist",
            StoreError::IndexFailed => "local index could not be searched",
            StoreError::InvalidColumn { .. } => "stored clip cannot be read",
        }
    }
}

// ---------------------------------------------------------------------------
// The limit
// ---------------------------------------------------------------------------

/// Whether a number may be the limit.
pub open spec fn is_history_limit(limit: int) -> bool {
    MIN_HISTORY_LIMIT <= limit <= MAX_HISTORY_LIMIT
}

/// Checks that a number may be the limit.
pub fn validate_history_limit(limit: usize) -> (r: Result<(), StoreError>)
    ensures
        r == (if is_history_limit(limit as int) {
            Ok::<(), StoreError>(())
        } else {
            Err(StoreError::LimitOutOfRange)
        }),
{
    if limit < MIN_HISTORY_LIMIT || limit > MAX_HISTORY_LIMIT {
        return Err(StoreError::LimitOutOfRange);
    }
    Ok(())
}

/// Whether a text has nothing but decimal digits.
pub open spec fn all_digits(s: Seq<char>) -> bool {
    forall|i: int| 0 <= i < s.len() ==> '0' <= #[trigger] s[i] <= '9'
}

/// The value of decimal digits.
pub open spec fn digits_value(s: Seq<char>) -> nat
    decreases s.len(),
{
    if s.len() == 0 {
        0
    } else {
        digits_value(s.drop_last()) * 10 + (s.last() as int - 48) as nat
    }
}

/// The digits of a number that may begin with a plus sign.
pub open spec fn unsigned_part(s: Seq<char>) -> Seq<char> {
    if s.len() > 0 && s[0] == '+' {
        s.drop_first()
    } else {
        s
    }
}

/// The number that a text stands for: decimal digits, with or without a plus sign before them,
/// and not more than a machine word holds.
pub open spec fn number_of(s: Seq<char>) -> Option<nat> {
    let digits = unsigned_part(s);
    if digits.len() > 0 && all_digits(digits) && digits_value(digits) <= usize::MAX {
        Some(digits_value(digits))
    } else {
        None
    }
}

/// What a stored limit stands for.
pub open spec fn limit_of(raw: Seq<char>) -> Result<usize, StoreError> {
    match number_of(raw) {
        None => Err(StoreError::LimitNotNumeric),
        Some(n) => if is_history_limit(n as int) {
            Ok(n as usize)
        } else {
            Err(StoreError::LimitOutOfRange)
        },
    }
}

proof fn lemma_digits_grow(s: Seq<char>, n: int)
    requires
        0 <= n <= s.len(),
        all_digits(s),
    ensures
        digits_value(s.take(n)) <= digits_value(s),
    decreases s.len() - n,
{
    if n < s.len() {
        assert(s.take(n + 1).drop_last() =~= s.take(n));
        assert('0' <= s[n] <= '9');
        lemma_digits_grow(s, n + 1);
    } else {
        assert(s.take(n) =~= s);
    }
}

/// The number that a text stands for.
fn parse_number(raw: &str) -> (r: Option<usize>)
    ensures
        match number_of(raw@) {
            Some(n) => r matches Some(value) && value == n,
            None => r is None,
        },
{
    let chars = text::to_chars(raw);
    let from: usize = if chars.len() > 0 && chars[0] == '+' {
        1
    } else {
        0
    };
    let ghost digits = unsigned_part(raw@);
    assert(digits =~= chars@.skip(from as int));
    if from == chars.len() {
        return None;
    }
    let mut value: usize = 0;
    let mut i: usize = from;
    assert(digits.take(0) =~= Seq::empty());
    while i < chars.len()
        invariant
            from <= i <= chars@.len(),
            digits == chars@.skip(from as int),
            digits == unsigned_part(raw@),
            digits.len() > 0,
            all_digits(digits.take(i - from)),
            value == digits_value(digits.take(i - from)),
        decreases chars@.len() - i,
    {
        let c = chars[i];
        assert(c == digits[i - from]);
        if c < '0' || c > '9' {
            assert(!all_digits(digits));
            return None;
        }
        let digit: usize = (c as u32 - 48) as usize;
        let ghost more = digits.take(i + 1 - from);
        proof {
            assert(more.drop_last() =~= digits.take(i - from));
            assert(digits_value(more) == value * 10 + digit);
            if all_digits(digits) {
                lemma_digits_grow(digits, i + 1 - from);
            }
        }
        if value > (usize::MAX - digit) / 10 {
            return None;
        }
        value = value * 10 + digit;
        assert forall|j: int| 0 <= j < more.len() implies '0' <= #[trigger] more[j] <= '9' by {
            if j < i - from {
                assert(digits.take(i - from)[j] == more[j]);
            }
        }
        i = i + 1;
    }
    assert(digits.take(i - from) =~= digits);
    Some(value)
}

/// What a stored limit stands for.
pub fn parse_history_limit(raw: &str) -> (r: Result<usize, StoreError>)
    ensures
        r == limit_of(raw@),
{
    match parse_number(raw) {
        None => Err(StoreError::LimitNotNumeric),
        Some(value) => match validate_history_limit(value) {
            Ok(()) => Ok(value),
            Err(e) => Err(e),
        },
    }
}

proof fn lemma_decimal_value(n: nat)
    ensures
        text::decimal(n).len() > 0,
        all_digits(text::decimal(n)),
        digits_value(text::decimal(n)) == n,
    decreases n,
{
    let s = text::decimal(n);
    if n >= 10 {
        lemma_decimal_value(n / 10);
        let rest = text::decimal(n / 10);
        assert(s.drop_last() =~= rest);
        assert forall|i: int| 0 <= i < s.len() implies '0' <= #[trigger] s[i] <= '9' by {
            if i < rest.len() {
                assert(rest[i] == s[i]);
            }
        }
    } else {
        assert(s.drop_last() =~= Seq::empty());
        assert(digits_value(s.drop_last()) == 0);
    }
}

/// A limit that was written is read back.
pub proof fn limits_are_read_back(limit: usize)
    requires
        is_history_limit(limit as int),
    ensures
        limit_of(text::decimal(limit as nat)) == Ok::<usize, StoreError>(limit),
{
    lemma_decimal_value(limit as nat);
    let s = text::decimal(limit as nat);
    assert('0' <= s[0] <= '9');
    assert(unsigned_part(s) == s);
}

// ---------------------------------------------------------------------------
// Captured clips
// ---------------------------------------------------------------------------

/// The first eight bytes of a PNG file.
pub open spec fn png_signature() -> Seq<u8> {
    seq![137, 80, 78, 71, 13, 10, 26, 10]
}

/// Whether a URI is too long or contains a zero character.
pub open spec fn is_invalid_uri(uri: Seq<char>) -> bool {
    vstd::utf8::encode_utf8(uri).len() > MAX_URI_BYTES || uri.contains('\0')
}

/// The size of a text that may be missing.
pub open spec fn optional_size(value: Option<Seq<char>>) -> nat {
    match value {
        Some(s) => vstd::utf8::encode_utf8(s).len(),
        None => 0,
    }
}

/// Why a captured clip is not stored.
pub open spec fn input_error(input: InputView) -> Option<StoreError> {
    match input {
        InputView::Text { text, html } => if text::is_blank(text) {
            Some(StoreError::EmptyText)
        } else if vstd::utf8::encode_utf8(text).len() + optional_size(html) > MAX_TEXT_BYTES {
            Some(StoreError::TextTooLarge)
        } else {
            None
        },
        InputView::ImagePng { bytes } => if bytes.len() == 0 || bytes.len() > MAX_IMAGE_BYTES {
            Some(StoreError::ImageSize)
        } else if !png_signature().is_prefix_of(bytes) {
            Some(StoreError::NotPng)
        } else {
            None
        },
        InputView::Files { uris } => if uris.len() == 0 || uris.len() > MAX_FILES {
            Some(StoreError::FileCount)
        } else if exists|i: int| 0 <= i < uris.len() && is_invalid_uri(#[trigger] uris[i]) {
            Some(StoreError::InvalidUri)
        } else {
            None
        },
    }
}

/// Whether bytes begin like a PNG file.
fn starts_like_png(bytes: &[u8]) -> (r: bool)
    ensures
        r == png_signature().is_prefix_of(bytes@),
{
    if bytes.len() < 8 {
        return false;
    }
    let r = bytes[0] == 137 && bytes[1] == 80 && bytes[2] == 78 && bytes[3] == 71 && bytes[4] == 13
        && bytes[5] == 10 && bytes[6] == 26 && bytes[7] == 10;
    proof {
        let head = bytes@.subrange(0, 8);
        if r {
            assert(head =~= png_signature());
        } else {
            assert(head[0] != 137 || head[1] != 80 || head[2] != 78 || head[3] != 71 || head[4]
                != 13 || head[5] != 10 || head[6] != 26 || head[7] != 10);
            assert(head != png_signature());
        }
    }
    r
}

/// Checks that a captured clip can be stored.
pub fn validate_input(input: &ClipInput) -> (r: Result<(), StoreError>)
    ensures
        r == (match input_error(input@) {
            Some(e) => Err::<(), StoreError>(e),
            None => Ok(()),
        }),
{
    match input {
        ClipInput::Text { text, html } => {
            if text::blank(text.as_str()) {
                return Err(StoreError::EmptyText);
            }
            let size: usize = text.as_str().as_bytes().len();
            let html_size: usize = match html {
                Some(html) => html.as_str().as_bytes().len(),
                None => 0,
            };
            if size > MAX_TEXT_BYTES || html_size > MAX_TEXT_BYTES - size {
                return Err(StoreError::TextTooLarge);
            }
            Ok(())
        },
        ClipInput::ImagePng { bytes } => {
            if bytes.len() == 0 || bytes.len() > MAX_IMAGE_BYTES {
                return Err(StoreError::ImageSize);
            }
            if !starts_like_png(bytes.as_slice()) {
                return Err(StoreError::NotPng);
            }
            Ok(())
        },
        ClipInput::Files { uris } => {
            let ghost list = text::texts(uris@);
            if uris.len() == 0 || uris.len() > MAX_FILES {
                return Err(StoreError::FileCount);
            }
            let mut i: usize = 0;
            while i < uris.len()
                invariant
                    i <= uris@.len(),
                    list == text::texts(uris@),
                    input@ == (InputView::Files { uris: list }),
                    0 < list.len() <= MAX_FILES,
                    forall|j: int| 0 <= j < i ==> !is_invalid_uri(#[trigger] list[j]),
                decreases uris@.len() - i,
            {
                assert(list[i as int] == uris@[i as int]@);
                if uris[i].as_str().as_bytes().len() > MAX_URI_BYTES || text::contains_char(
                    uris[i].as_str(),
                    '\0',
                ) {
                    assert(is_invalid_uri(list[i as int]));
                    return Err(StoreError::InvalidUri);
                }
                i = i + 1;
            }
            Ok(())
        },
    }
}

/// Every text with a zero byte behind it.
pub open spec fn terminated(list: Seq<Seq<char>>) -> Seq<u8>
    decreases list.len(),
{
    if list.len() == 0 {
        seq![]
    } else {
        terminated(list.drop_last()) + vstd::utf8::encode_utf8(list.last()) + seq![0u8]
    }
}

/// The bytes that stand for the content of a clip.
pub open spec fn content_bytes(input: InputView) -> Seq<u8> {
    vstd::utf8::encode_utf8(input.kind().name()@) + seq![0u8] + match input {
        InputView::Text { text, html } => vstd::utf8::encode_utf8(text) + seq![0u8] + match html {
            Some(html) => vstd::utf8::encode_utf8(html),
            None => seq![],
        },
        InputView::ImagePng { bytes } => bytes,
        InputView::Files { uris } => terminated(uris),
    }
}

/// The hash by which equal clips are recognized.
pub open spec fn hash_of(input: InputView) -> Seq<char> {
    codec::hex_lower(crypto::sha256(content_bytes(input)))
}

/// The bytes that stand for the content of a clip.
pub fn content(input: &ClipInput) -> (bytes: Vec<u8>)
    ensures
        bytes@ == content_bytes(input@),
{
    let mut bytes: Vec<u8> = Vec::new();
    text::append_bytes(&mut bytes, input.kind().as_str().as_bytes());
    bytes.push(0);
    let ghost head = bytes@;
    assert(head =~= vstd::utf8::encode_utf8(input@.kind().name()@) + seq![0u8]);
    match input {
        ClipInput::Text { text, html } => {
            text::append_bytes(&mut bytes, text.as_str().as_bytes());
            bytes.push(0);
            match html {
                Some(html) => {
                    text::append_bytes(&mut bytes, html.as_str().as_bytes());
                },
                None => {},
            }
        },
        ClipInput::ImagePng { bytes: image } => {
            text::append_bytes(&mut bytes, image.as_slice());
        },
        ClipInput::Files { uris } => {
            let ghost list = text::texts(uris@);
            let mut i: usize = 0;
            assert(list.take(0) =~= Seq::empty());
            assert(bytes@ =~= head + terminated(list.take(0)));
            while i < uris.len()
                invariant
                    i <= uris@.len(),
                    list == text::texts(uris@),
                    bytes@ == head + terminated(list.take(i as int)),
                decreases uris@.len() - i,
            {
                let ghost more = list.take(i + 1);
                text::append_bytes(&mut bytes, uris[i].as_str().as_bytes());
                bytes.push(0);
                assert(more.drop_last() =~= list.take(i as int));
                assert(more.last() == uris@[i as int]@);
                assert(bytes@ =~= head + terminated(more));
                i = i + 1;
            }
            assert(list.take(i as int) =~= list);
        },
    }
    assert(bytes@ =~= content_bytes(input@));
    bytes
}

/// The hash by which equal clips are recognized.
pub fn content_hash(input: &ClipInput) -> (s: String)
    ensures
        s@ == hash_of(input@),
        s@.len() == 64,
{
    let bytes = content(input);
    let digest = crypto::sha256_digest(bytes.as_slice());
    codec::hex_encode(digest.as_slice())
}

// ---------------------------------------------------------------------------
// Search expressions
// ---------------------------------------------------------------------------

/// A text with every quote doubled.
pub open spec fn doubled_quotes(s: Seq<char>) -> Seq<char>
    decreases s.len(),
{
    if s.len() == 0 {
        seq![]
    } else if s.last() == '"' {
        doubled_quotes(s.drop_last()) + seq!['"', '"']
    } else {
        doubled_quotes(s.drop_last()).push(s.last())
    }
}

/// A token as a quoted phrase.
pub open spec fn phrase(token: Seq<char>) -> Seq<char> {
    seq!['"'] + doubled_quotes(token) + seq!['"']
}

/// The phrases of a query, all of which have to match.
pub open spec fn search_expression(query: Seq<char>) -> Seq<char> {
    text::joined(
        text::runs(query, TokenClass::NonBlank).map_values(|token: Seq<char>| phrase(token)),
        " AND "@,
    )
}

/// A token as a quoted phrase.
fn quoted_phrase(token: &str) -> (s: String)
    ensures
        s@ == phrase(token@),
{
    let chars = text::to_chars(token);
    let mut s = String::new();
    s.push('"');
    let mut i: usize = 0;
    assert(chars@.take(0) =~= Seq::empty());
    assert(s@ =~= seq!['"'] + doubled_quotes(chars@.take(0)));
    while i < chars.len()
        invariant
            i <= chars@.len(),
            s@ == seq!['"'] + doubled_quotes(chars@.take(i as int)),
        decreases chars@.len() - i,
    {
        let ghost more = chars@.take(i + 1);
        assert(more.drop_last() =~= chars@.take(i as int));
        if chars[i] == '"' {
            s.push('"');
            s.push('"');
        } else {
            s.push(chars[i]);
        }
        assert(s@ =~= seq!['"'] + doubled_quotes(more));
        i = i + 1;
    }
    assert(chars@.take(i as int) =~= chars@);
    s.push('"');
    assert(s@ =~= phrase(token@));
    s
}

/// The phrases of a query, all of which have to match.
pub fn fts_expression(query: &str) -> (s: String)
    ensures
        s@ == search_expression(query@),
{
    let tokens = text::split_runs(query, TokenClass::NonBlank);
    let ghost list = text::runs(query@, TokenClass::NonBlank);
    let mut phrases: Vec<String> = Vec::new();
    let mut i: usize = 0;
    while i < tokens.len()
        invariant
            i <= tokens@.len(),
            list == text::texts(tokens@),
            phrases@.len() == i,
            forall|j: int| 0 <= j < i ==> (#[trigger] phrases@[j])@ == phrase(list[j]),
        decreases tokens@.len() - i,
    {
        phrases.push(quoted_phrase(tokens[i].as_str()));
        i = i + 1;
    }
    assert(text::texts(phrases@) =~= list.map_values(|token: Seq<char>| phrase(token)));
    text::join(phrases.as_slice(), " AND ")
}

/// A query has no expression exactly where it has nothing but white space.
pub proof fn blank_queries_have_no_expression(query: Seq<char>)
    ensures
        search_expression(query).len() == 0 <==> text::is_blank(query),
{
    let list = text::runs(query, TokenClass::NonBlank);
    let phrases = list.map_values(|token: Seq<char>| phrase(token));
    text::runs_are_empty_where_no_character_counts(query, TokenClass::NonBlank);
    if text::is_blank(query) {
        assert forall|i: int| 0 <= i < query.len() implies !TokenClass::NonBlank.has(
            #[trigger] query[i],
        ) by {}
        assert(list.len() == 0);
    } else {
        let i = choose|i: int| 0 <= i < query.len() && !text::is_white_space(#[trigger] query[i]);
        assert(TokenClass::NonBlank.has(query[i]));
        assert(list.len() > 0);
        assert(phrases.last() == phrase(list.last()));
        assert(phrases.last().len() >= 2);
    }
}

// ---------------------------------------------------------------------------
// What the content of a clip is
// ---------------------------------------------------------------------------

/// Every text of a list stands in the content with one zero byte behind it, in the order of the list.
pub proof fn lists_are_terminated_one_by_one(a: Seq<Seq<char>>, b: Seq<Seq<char>>)
    ensures
        a.len() == 0 ==> terminated(a).len() == 0,
        a.len() == 1 ==> terminated(a) == vstd::utf8::encode_utf8(a[0]).push(0),
        terminated(a + b) == terminated(a) + terminated(b),
    decreases b.len(),
{
    if a.len() == 1 {
        assert(terminated(a.drop_last()) =~= Seq::empty());
        assert(terminated(a) =~= vstd::utf8::encode_utf8(a[0]).push(0));
    }
    if b.len() == 0 {
        assert(a + b =~= a);
        assert(terminated(a) + terminated(b) =~= terminated(a));
    } else {
        let all = a + b;
        assert(all.drop_last() =~= a + b.drop_last());
        assert(all.last() == b.last());
        lists_are_terminated_one_by_one(a, b.drop_last());
        assert(terminated(all) =~= terminated(a) + terminated(b));
    }
}

/// The content of a clip is the name of its kind, a zero byte, and all that was captured.
pub proof fn content_is_all_that_was_captured(input: InputView)
    ensures
        ({
            let content = content_bytes(input);
            match input {
                InputView::Text { text, html: None } => content == vstd::utf8::encode_utf8(
                    "text"@,
                ).push(0) + vstd::utf8::encode_utf8(text).push(0),
                InputView::Text { text, html: Some(html) } => content == vstd::utf8::encode_utf8(
                    "text"@,
                ).push(0) + vstd::utf8::encode_utf8(text).push(0) + vstd::utf8::encode_utf8(html),
                InputView::ImagePng { bytes } => content == vstd::utf8::encode_utf8(
                    "image"@,
                ).push(0) + bytes,
                InputView::Files { uris } => content == vstd::utf8::encode_utf8("files"@).push(0)
                    + terminated(uris),
            }
        }),
        hash_of(input) == codec::hex_lower(crypto::sha256(content_bytes(input))),
{
    let content = content_bytes(input);
    match input {
        InputView::Text { text, html: None } => {
            assert(content =~= vstd::utf8::encode_utf8("text"@).push(0) + vstd::utf8::encode_utf8(
                text,
            ).push(0));
        },
        InputView::Text { text, html: Some(html) } => {
            assert(content =~= vstd::utf8::encode_utf8("text"@).push(0) + vstd::utf8::encode_utf8(
                text,
            ).push(0) + vstd::utf8::encode_utf8(html));
        },
        InputView::ImagePng { bytes } => {
            assert(content =~= vstd::utf8::encode_utf8("image"@).push(0) + bytes);
        },
        InputView::Files { uris } => {
            assert(content =~= vstd::utf8::encode_utf8("files"@).push(0) + terminated(uris));
        },
    }
}

} // verus!
