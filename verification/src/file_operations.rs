//! The search for a text in what a file holds.

use vstd::prelude::*;
use crate::text::{contains, text_contains};

verus! {

/// A file with the content `content` holds the text `search_string`. A file
/// whose content could not be read as text holds no text at all.
pub open spec fn content_matches(content: Option<Seq<char>>, search_string: Seq<char>) -> bool {
    match content {
        Some(content) => text_contains(content, search_string),
        None => false,
    }
}

/// The characters of a text that may be absent.
pub open spec fn text_of(text: Option<&str>) -> Option<Seq<char>> {
    match text {
        Some(text) => Some(text@),
        None => None,
    }
}

/// Whether a file holds `search_string`, byte for byte and with regard to
/// case. `contents` is the whole content of the file, or `None` where the
/// file could not be read or is not text; such a file never matches. The
/// empty `search_string` is found in every file that could be read.
pub fn search_in_text_file(contents: Option<&str>, search_string: &str) -> (found: bool)
    ensures
        found == content_matches(text_of(contents), search_string@),
{
    if let Some(contents) = contents {
        return contains(contents, search_string);
    }
    false
}

} // verus!
