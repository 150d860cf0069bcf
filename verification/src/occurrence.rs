//! The entries that a listing yields, their order and their printed form.

use vstd::prelude::*;
use vstd::relations::*;
use vstd::string::*;
use crate::text::{le, lemma_encoding_injective, lemma_lex_le_antisymmetric, lemma_lex_le_reflexive,
    lemma_lex_le_total, lemma_lex_le_transitive, text_le};

verus! {

/// What an entry is. The variants stand in the order in which entries of
/// different kinds are sorted.
#[derive(Clone, Copy, Debug, PartialEq, Eq, Structural)]
pub enum Kind {
    /// A file whose name has none of the endings of a text file.
    PlainFile,
    /// A directory.
    Directory,
    /// A file whose name ends in `.txt` or `.rs`.
    TextFile,
}

/// One entry that was found, with its path as text. A path that is not
/// valid Unicode is held with U+FFFD in the place of what cannot be read.
#[derive(Clone, Debug, PartialEq, Eq, PartialOrd, Ord)]
pub enum Occurrence {
    /// A file that is not taken for a text file.
    PlainFile(String),
    /// A directory.
    Directory(String),
    /// A file that its name shows to be a text file.
    TextFile(String),
}

/// The mathematical value of an [`Occurrence`]: its kind and the characters
/// of its path.
pub struct OccurrenceView {
    pub kind: Kind,
    pub path: Seq<char>,
}

impl View for Occurrence {
    type V = OccurrenceView;

    open spec fn view(&self) -> OccurrenceView {
        match self {
            Occurrence::PlainFile(path) => OccurrenceView { kind: Kind::PlainFile, path: path@ },
            Occurrence::Directory(path) => OccurrenceView { kind: Kind::Directory, path: path@ },
            Occurrence::TextFile(path) => OccurrenceView { kind: Kind::TextFile, path: path@ },
        }
    }
}

impl DeepView for Occurrence {
    type V = OccurrenceView;

    open spec fn deep_view(&self) -> OccurrenceView {
        self@
    }
}

/// The values of a sequence of entries.
pub open spec fn views(occurrences: Seq<Occurrence>) -> Seq<OccurrenceView> {
    occurrences.map_values(|occurrence: Occurrence| occurrence@)
}

/// A text in the form in which the standard library prints a string for
/// debugging: between double quotes, with the characters that cannot stand
/// for themselves escaped.
pub uninterp spec fn debug_text(text: Seq<char>) -> Seq<char>;

/// The word that names a kind.
pub open spec fn kind_name(kind: Kind) -> Seq<char> {
    match kind {
        Kind::PlainFile => "PlainFile"@,
        Kind::Directory => "Directory"@,
        Kind::TextFile => "TextFile"@,
    }
}

/// The line for an entry of the given kind whose path, in the form for
/// debugging, is `quoted`: the name of the kind, then `quoted` in round
/// brackets.
pub open spec fn line_text(kind: Kind, quoted: Seq<char>) -> Seq<char> {
    kind_name(kind) + "("@ + quoted + ")"@
}

/// The line that shows an entry: the name of its kind, and in round
/// brackets its path in the form for debugging.
pub open spec fn line_of(entry: OccurrenceView) -> Seq<char> {
    line_text(entry.kind, debug_text(entry.path))
}

/// The place of a kind in the order of the kinds.
pub open spec fn rank(kind: Kind) -> int {
    match kind {
        Kind::PlainFile => 0,
        Kind::Directory => 1,
        Kind::TextFile => 2,
    }
}

/// The order of the entries: by kind first, files before directories before
/// text files, and among entries of one kind by the bytes of the path.
pub open spec fn occurrence_le(a: OccurrenceView, b: OccurrenceView) -> bool {
    rank(a.kind) < rank(b.kind) || (a.kind == b.kind && text_le(a.path, b.path))
}

/// [`occurrence_le`] as a relation.
pub open spec fn occurrence_order() -> spec_fn(OccurrenceView, OccurrenceView) -> bool {
    |a: OccurrenceView, b: OccurrenceView| occurrence_le(a, b)
}

/// The order of the entries is total: any two entries compare, no two
/// different entries are equivalent, and the order is transitive.
pub proof fn lemma_occurrence_order_total()
    ensures
        total_ordering(occurrence_order()),
{
    let order = occurrence_order();
    assert forall|a: OccurrenceView| #[trigger] order(a, a) by {
        lemma_lex_le_reflexive(vstd::utf8::encode_utf8(a.path));
    }
    assert forall|a: OccurrenceView, b: OccurrenceView| #[trigger]
        order(a, b) && #[trigger] order(b, a) implies a == b by {
        lemma_lex_le_antisymmetric(
            vstd::utf8::encode_utf8(a.path),
            vstd::utf8::encode_utf8(b.path),
        );
        lemma_encoding_injective(a.path, b.path);
    }
    assert forall|a: OccurrenceView, b: OccurrenceView, c: OccurrenceView| #[trigger]
        order(a, b) && #[trigger] order(b, c) implies order(a, c) by {
        if a.kind == b.kind && b.kind == c.kind {
            lemma_lex_le_transitive(
                vstd::utf8::encode_utf8(a.path),
                vstd::utf8::encode_utf8(b.path),
                vstd::utf8::encode_utf8(c.path),
            );
        }
    }
    assert forall|a: OccurrenceView, b: OccurrenceView| #[trigger]
        order(a, b) || #[trigger] order(b, a) by {
        lemma_lex_le_total(vstd::utf8::encode_utf8(a.path), vstd::utf8::encode_utf8(b.path));
    }
}

impl Occurrence {
    /// An entry of the given kind at the given path.
    pub fn new(kind: Kind, path: String) -> (occurrence: Occurrence)
        ensures
            occurrence@ == (OccurrenceView { kind, path: path@ }),
    {
        match kind {
            Kind::PlainFile => Occurrence::PlainFile(path),
            Kind::Directory => Occurrence::Directory(path),
            Kind::TextFile => Occurrence::TextFile(path),
        }
    }

    /// The kind of the entry.
    pub fn kind(&self) -> (kind: Kind)
        ensures
            kind == self@.kind,
    {
        match self {
            Occurrence::PlainFile(_) => Kind::PlainFile,
            Occurrence::Directory(_) => Kind::Directory,
            Occurrence::TextFile(_) => Kind::TextFile,
        }
    }

    /// The path of the entry.
    pub fn path(&self) -> (path: &String)
        ensures
            path@ == self@.path,
    {
        match self {
            Occurrence::PlainFile(path) => path,
            Occurrence::Directory(path) => path,
            Occurrence::TextFile(path) => path,
        }
    }

    /// The line that shows the entry, such as `TextFile("./a/b.txt")`.
    pub fn debug_string(&self) -> (line: String)
        ensures
            line@ == line_of(self@),
    {
        let quoted = debug_quoted(self.path().as_str());
        line_with(self.kind(), quoted.as_str())
    }

    /// Whether `self` does not come after `other` in the order of the entries.
    pub fn le(&self, other: &Occurrence) -> (le: bool)
        ensures
            le == occurrence_le(self@, other@),
    {
        let mine: u8 = kind_rank(self.kind());
        let theirs: u8 = kind_rank(other.kind());
        if mine != theirs {
            mine < theirs
        } else {
            le(self.path().as_str(), other.path().as_str())
        }
    }
}

/// Calls the `Debug` formatting of `str` of the standard library, through
/// `format!` with `{:?}`. The contract gives the result its name,
/// [`debug_text`], and claims nothing of what it holds: the result depends
/// on the characters of the text alone.
#[verifier::external_body]
fn debug_quoted(text: &str) -> (quoted: String)
    ensures
        quoted@ == debug_text(text@),
{
    format!("{:?}", text)
}

/// The line for an entry of the given kind, from its path in the form for
/// debugging: `line_with(Kind::PlainFile, "\"a.bin\"")` is
/// `PlainFile("a.bin")`.
pub fn line_with(kind: Kind, quoted: &str) -> (line: String)
    ensures
        line@ == line_text(kind, quoted@),
{
    let mut line = match kind {
        Kind::PlainFile => String::from_str("PlainFile"),
        Kind::Directory => String::from_str("Directory"),
        Kind::TextFile => String::from_str("TextFile"),
    };
    line.append("(");
    line.append(quoted);
    line.append(")");
    line
}

/// The place of a kind in the order of the kinds, as a number.
pub fn kind_rank(kind: Kind) -> (place: u8)
    ensures
        place == rank(kind),
{
    match kind {
        Kind::PlainFile => 0,
        Kind::Directory => 1,
        Kind::TextFile => 2,
    }
}

} // verus!
