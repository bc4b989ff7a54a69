//! Which of the clipboard's formats is taken, and what is taken of it.

use crate::model::{ClipInput, InputView};
use crate::store::{self, StoreError};
use crate::text;
use vstd::prelude::*;

verus! {

/// The largest image that is taken.
pub const MAX_IMAGE_BYTES: usize = 8_388_608;

/// The longest file list that is taken.
pub const MAX_FILES: usize = 128;

/// Why nothing is taken.
#[derive(Clone, Copy, Debug, PartialEq, Eq, Structural)]
pub enum ClipboardError {
    EmptyFileList,
    TooManyFiles,
    ImageTooLarge,
    NoContent,
}

impl ClipboardError {
    /// The sentence that is shown to the user.
    pub open spec fn message_text(self) -> &'static str {
        match self {
            ClipboardError::EmptyFileList => "clipboard file list is empty",
            ClipboardError::TooManyFiles => "clipboard file list exceeds the item limit",
            ClipboardError::ImageTooLarge => "clipboard image exceeds the byte limit",
            ClipboardError::NoContent => "clipboard contains no supported non-empty content",
        }
    }

    /// The sentence that is shown to the user.
    pub fn message(&self) -> (s: &'static str)
        ensures
            s@ == self.message_text()@,
    {
        match self {
            ClipboardError::EmptyFileList => "clipboard file list is empty",
            ClipboardError::TooManyFiles => "clipboard file list exceeds the item limit",
            ClipboardError::ImageTooLarge => "clipboard image exceeds the byte limit",
            ClipboardError::NoContent => "clipboard contains no supported non-empty content",
        }
    }
}

/// The format that is read.
#[derive(Clone, Copy, Debug, PartialEq, Eq, Structural)]
pub enum ClipboardSource {
    Files,
    Image,
    Text,
}

/// Files come before images, and images before text.
pub fn preferred_source(has_files: bool, has_image: bool) -> (s: ClipboardSource)
    ensures
        s == (if has_files {
            ClipboardSource::Files
        } else if has_image {
            ClipboardSource::Image
        } else {
            ClipboardSource::Text
        }),
{
    if has_files {
        ClipboardSource::Files
    } else if has_image {
        ClipboardSource::Image
    } else {
        ClipboardSource::Text
    }
}

/// A clip of a file list, where the list is neither empty nor too long.
pub fn clip_from_files(files: Vec<String>) -> (r: Result<ClipInput, ClipboardError>)
    ensures
        r == (if files@.len() == 0 {
            Err::<ClipInput, ClipboardError>(ClipboardError::EmptyFileList)
        } else if files@.len() > MAX_FILES {
            Err(ClipboardError::TooManyFiles)
        } else {
            Ok(ClipInput::Files { uris: files })
        }),
{
    if files.len() == 0 {
        return Err(ClipboardError::EmptyFileList);
    }
    if files.len() > MAX_FILES {
        return Err(ClipboardError::TooManyFiles);
    }
    Ok(ClipInput::Files { uris: files })
}

/// A clip of an image, where the image is not too large.
pub fn clip_from_image(png: Vec<u8>) -> (r: Result<ClipInput, ClipboardError>)
    ensures
        r == (if png@.len() > MAX_IMAGE_BYTES {
            Err::<ClipInput, ClipboardError>(ClipboardError::ImageTooLarge)
        } else {
            Ok(ClipInput::ImagePng { bytes: png })
        }),
{
    if png.len() > MAX_IMAGE_BYTES {
        return Err(ClipboardError::ImageTooLarge);
    }
    Ok(ClipInput::ImagePng { bytes: png })
}

/// Whether a text is worth taking, before its HTML is asked for.
pub fn check_text(value: &str) -> (r: Result<(), ClipboardError>)
    ensures
        r == (if text::is_blank(value@) {
            Err::<(), ClipboardError>(ClipboardError::NoContent)
        } else {
            Ok(())
        }),
{
    if text::blank(value) {
        return Err(ClipboardError::NoContent);
    }
    Ok(())
}

/// A clip of a text, where there is more than white space, with its HTML where there is any.
pub fn clip_from_text(value: String, html: Option<String>) -> (r: Result<ClipInput, ClipboardError>)
    ensures
        text::is_blank(value@) ==> r == Err::<ClipInput, ClipboardError>(ClipboardError::NoContent),
        !text::is_blank(value@) ==> r == Ok::<ClipInput, ClipboardError>(
            ClipInput::Text {
                text: value,
                html: match html {
                    Some(markup) => if markup@.len() == 0 {
                        None
                    } else {
                        Some(markup)
                    },
                    None => None,
                },
            },
        ),
{
    match check_text(value.as_str()) {
        Ok(()) => {},
        Err(e) => {
            return Err(e);
        },
    }
    let html = match html {
        Some(markup) => {
            if text::to_chars(markup.as_str()).len() == 0 {
                None
            } else {
                Some(markup)
            }
        },
        None => None,
    };
    Ok(ClipInput::Text { text: value, html })
}

/// What is taken of the clipboard is not refused for its size when it is stored, and what would be
/// refused for it is not taken.
pub proof fn the_clipboard_gives_what_the_history_takes(uris: Seq<Seq<char>>, png: Seq<u8>)
    ensures
        1 <= uris.len() <= MAX_FILES <==> store::input_error(InputView::Files { uris }) != Some(
            StoreError::FileCount,
        ),
        png.len() > 0 ==> (png.len() <= MAX_IMAGE_BYTES <==> store::input_error(
            InputView::ImagePng { bytes: png },
        ) != Some(StoreError::ImageSize)),
        MAX_FILES == 128,
        MAX_IMAGE_BYTES == 8 * 1024 * 1024,
{
}

/// Every refusal of the clipboard has its sentence.
pub proof fn clipboard_errors_have_their_sentences(error: ClipboardError)
    ensures
        error.message_text()@ == (match error {
            ClipboardError::EmptyFileList => "clipboard file list is empty"@,
            ClipboardError::TooManyFiles => "clipboard file list exceeds the item limit"@,
            ClipboardError::ImageTooLarge => "clipboard image exceeds the byte limit"@,
            ClipboardError::NoContent => "clipboard contains no supported non-empty content"@,
        }),
{
}

} // verus!
