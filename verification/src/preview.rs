//! Previews: which kind of preview a selected path gets, and what is shown
//! once its content has been asked for.

use vstd::prelude::*;

verus! {

/// What has to be fetched to preview a path.
#[derive(Debug, Clone, Copy, PartialEq, Eq, Structural)]
pub enum PreviewSource {
    /// Nothing is selected.
    Nothing,
    /// The content of the file, as text.
    FileContent,
    /// The address under which the file can be shown as an image.
    ResourcePath,
    /// Nothing: a file of this kind has no preview.
    Unsupported,
}

/// What the preview pane shows.
#[derive(Debug, Clone, PartialEq)]
pub enum PreviewType {
    Text(String),
    EmptyText,
    Image(String),
    FileNotFound,
    Unsupported,
    NoSelection,
}

/// The text ends with the suffix.
pub open spec fn ends_with(text: Seq<char>, suffix: Seq<char>) -> bool {
    suffix.len() <= text.len() && text.subrange(text.len() - suffix.len(), text.len() as int)
        == suffix
}

/// The path ends like a Markdown file.
pub open spec fn is_markdown(path: Seq<char>) -> bool {
    ends_with(path, ".md"@)
}

/// The path ends with one of the image formats.
pub open spec fn is_image(path: Seq<char>) -> bool {
    ||| ends_with(path, "png"@)
    ||| ends_with(path, "jpg"@)
    ||| ends_with(path, "jpeg"@)
    ||| ends_with(path, "gif"@)
    ||| ends_with(path, "webp"@)
    ||| ends_with(path, "svg"@)
}

/// What has to be fetched for a selection: a Markdown file is read, an
/// image is shown from its address, anything else has no preview.
pub open spec fn source_of(selected: Option<Seq<char>>) -> PreviewSource {
    match selected {
        None => PreviewSource::Nothing,
        Some(path) => if is_markdown(path) {
            PreviewSource::FileContent
        } else if is_image(path) {
            PreviewSource::ResourcePath
        } else {
            PreviewSource::Unsupported
        },
    }
}

/// Whether the text ends with the suffix.
pub fn has_suffix(text: &str, suffix: &str) -> (found: bool)
    ensures
        found == ends_with(text@, suffix@),
{
    let len: usize = text.unicode_len();
    let suffix_len: usize = suffix.unicode_len();
    if suffix_len > len {
        return false;
    }
    let tail: &str = text.substring_char(len - suffix_len, len);
    tail.to_owned() == suffix.to_owned()
}

/// What has to be fetched to preview the selected path.
pub fn preview_source(selected: Option<&String>) -> (source: PreviewSource)
    ensures
        source == source_of(
            match selected {
                Some(path) => Some(path@),
                None => None,
            },
        ),
{
    match selected {
        None => PreviewSource::Nothing,
        Some(path) => {
            let path: &str = path.as_str();
            if has_suffix(path, ".md") {
                PreviewSource::FileContent
            } else if has_suffix(path, "png") || has_suffix(path, "jpg") || has_suffix(path, "jpeg")
                || has_suffix(path, "gif") || has_suffix(path, "webp") || has_suffix(path, "svg") {
                PreviewSource::ResourcePath
            } else {
                PreviewSource::Unsupported
            }
        },
    }
}

/// The preview of a file that was read: its text, a note that it is empty,
/// or a note that it was not found.
pub fn text_preview(content: Option<String>) -> (preview: PreviewType)
    ensures
        content is None ==> preview == PreviewType::FileNotFound,
        content matches Some(text) ==> preview == if text@.len() == 0 {
            PreviewType::EmptyText
        } else {
            PreviewType::Text(text)
        },
{
    match content {
        Some(text) => {
            if text.as_str().is_empty() {
                PreviewType::EmptyText
            } else {
                PreviewType::Text(text)
            }
        },
        None => PreviewType::FileNotFound,
    }
}

/// The preview of an image: the image at its address, or a note that the
/// file was not found.
pub fn image_preview(resource_path: Option<String>) -> (preview: PreviewType)
    ensures
        preview == match resource_path {
            Some(address) => PreviewType::Image(address),
            None => PreviewType::FileNotFound,
        },
{
    match resource_path {
        Some(address) => PreviewType::Image(address),
        None => PreviewType::FileNotFound,
    }
}

/// What the preview pane shows for a selection once what it needs has been
/// fetched: `fetched` is the file's content or the image's address, and
/// `None` where the file was not found or nothing had to be fetched.
pub fn preview_of(source: PreviewSource, fetched: Option<String>) -> (preview: PreviewType)
    ensures
        preview == match source {
            PreviewSource::Nothing => PreviewType::NoSelection,
            PreviewSource::Unsupported => PreviewType::Unsupported,
            PreviewSource::FileContent => match fetched {
                Some(text) => if text@.len() == 0 {
                    PreviewType::EmptyText
                } else {
                    PreviewType::Text(text)
                },
                None => PreviewType::FileNotFound,
            },
            PreviewSource::ResourcePath => match fetched {
                Some(address) => PreviewType::Image(address),
                None => PreviewType::FileNotFound,
            },
        },
{
    match source {
        PreviewSource::Nothing => PreviewType::NoSelection,
        PreviewSource::Unsupported => PreviewType::Unsupported,
        PreviewSource::FileContent => text_preview(fetched),
        PreviewSource::ResourcePath => image_preview(fetched),
    }
}

} // verus!
