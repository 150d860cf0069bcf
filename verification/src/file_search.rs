//! The walk through a directory tree: every entry below a directory, in the
//! order in which the directories list them, each directory before what it
//! holds.

use vstd::prelude::*;
use vstd::string::*;
use crate::file_operations::{content_matches, search_in_text_file, text_of};
use crate::occurrence::{Kind, Occurrence, OccurrenceView};
use crate::sorting::{lemma_ascending_permutation_is_sorted, lemma_sorted_is_ascending_permutation,
    sorted};
use crate::text::{contains, ends_with, text_contains, text_ends_with};

verus! {

/// What was seen at one path of the file system.
pub struct Node {
    /// The path, as text. Where the path is not valid Unicode, U+FFFD
    /// stands in the place of what cannot be read.
    pub path: String,
    /// The last component of the path, where it can be read as text.
    pub name: Option<String>,
    /// Whether the path is a directory, where that could be determined.
    pub is_dir: Option<bool>,
    /// What the file holds, where it was read and is text.
    pub content: Option<String>,
    /// The entries of the directory in the order in which it lists them,
    /// where the path could be opened as a directory.
    pub children: Option<Vec<Node>>,
}

/// What is still to be read at a path.
#[derive(Clone, Copy, Debug, PartialEq, Eq, Structural)]
pub enum Reading {
    /// The entries of the directory.
    Listing,
    /// What the file holds.
    Content,
    /// Nothing.
    Nothing,
}

/// The kind of a file with the given name: a text file where the name ends
/// in `.txt` or `.rs`, with regard to case. A file whose name cannot be read
/// as text is no text file.
pub open spec fn kind_of_name(name: Option<Seq<char>>) -> Kind {
    match name {
        Some(name) => if text_ends_with(name, ".txt"@) || text_ends_with(name, ".rs"@) {
            Kind::TextFile
        } else {
            Kind::PlainFile
        },
        None => Kind::PlainFile,
    }
}

/// The name filter `find_file` lets the entry pass: there is no such filter,
/// or the entry is no directory and its path contains the text.
pub open spec fn name_allows(entry: OccurrenceView, find_file: Option<Seq<char>>) -> bool {
    match find_file {
        Some(part) => entry.kind != Kind::Directory && text_contains(entry.path, part),
        None => true,
    }
}

impl Node {
    /// The path is known to be a directory.
    pub open spec fn is_directory(&self) -> bool {
        self.is_dir == Some(true)
    }

    /// The kind of the entry: a directory where the path is known to be
    /// one, else a file of the kind that its name gives.
    pub open spec fn kind(&self) -> Kind {
        if self.is_directory() {
            Kind::Directory
        } else {
            kind_of_name(
                match self.name {
                    Some(name) => Some(name@),
                    None => None,
                },
            )
        }
    }

    /// The entry that stands for this path in a listing.
    pub open spec fn occurrence(&self) -> OccurrenceView {
        OccurrenceView { kind: self.kind(), path: self.path@ }
    }

    /// What the file holds, as characters.
    pub open spec fn text(&self) -> Option<Seq<char>> {
        match self.content {
            Some(content) => Some(content@),
            None => None,
        }
    }

    /// The entries of the directory; none where it could not be opened.
    pub open spec fn listing(&self) -> Seq<Node> {
        match self.children {
            Some(children) => children@,
            None => Seq::empty(),
        }
    }

    /// The content filter `search_string` lets the entry pass: there is no
    /// such filter, or the entry is a text file that holds the text.
    pub open spec fn content_allows(&self, search_string: Option<Seq<char>>) -> bool {
        match search_string {
            Some(text) => self.kind() == Kind::TextFile && content_matches(self.text(), text),
            None => true,
        }
    }

    /// Both filters let the entry pass.
    pub open spec fn retained(
        &self,
        find_file: Option<Seq<char>>,
        search_string: Option<Seq<char>>,
    ) -> bool {
        name_allows(self.occurrence(), find_file) && self.content_allows(search_string)
    }

    /// What the file holds bears on whether the entry is listed: there is a
    /// content filter, and the entry is a text file that the name filter
    /// lets pass.
    pub open spec fn content_decides(
        &self,
        find_file: Option<Seq<char>>,
        search_string: Option<Seq<char>>,
    ) -> bool {
        &&& search_string is Some
        &&& self.kind() == Kind::TextFile
        &&& name_allows(self.occurrence(), find_file)
    }

    /// What a listing needs to know of the entry: of a directory its
    /// entries, of a file what it holds where that decides, else nothing.
    pub open spec fn reading(
        &self,
        find_file: Option<Seq<char>>,
        search_string: Option<Seq<char>>,
    ) -> Reading {
        if self.is_directory() {
            Reading::Listing
        } else if self.content_decides(find_file, search_string) {
            Reading::Content
        } else {
            Reading::Nothing
        }
    }

    /// Everything below the first `count` entries of the directory, each
    /// entry followed by what lies below it where it is a directory.
    pub open spec fn below_first(&self, count: nat) -> Seq<Node>
        decreases *self, count,
    {
        if count == 0 || count > self.listing().len() {
            Seq::empty()
        } else {
            let child = self.listing()[count - 1];
            let deeper = if child.is_directory() {
                child.below_first(child.listing().len())
            } else {
                Seq::empty()
            };
            self.below_first((count - 1) as nat) + seq![child] + deeper
        }
    }

    /// Everything below the path, in the order of the walk.
    pub open spec fn below(&self) -> Seq<Node> {
        self.below_first(self.listing().len())
    }
}

/// The entries that stand for those of `nodes` which both filters let pass,
/// in the order of `nodes`.
pub open spec fn retained_of(
    nodes: Seq<Node>,
    find_file: Option<Seq<char>>,
    search_string: Option<Seq<char>>,
) -> Seq<OccurrenceView> {
    nodes.filter(|node: Node| node.retained(find_file, search_string)).map_values(
        |node: Node| node.occurrence(),
    )
}

/// What a listing of `node` yields: the entries below it that both filters
/// let pass, in the order of the walk or, where `sort` is set, sorted.
pub open spec fn listed(
    node: Node,
    find_file: Option<Seq<char>>,
    search_string: Option<Seq<char>>,
    sort: bool,
) -> Seq<OccurrenceView> {
    let kept = retained_of(node.below(), find_file, search_string);
    if sort {
        sorted(kept)
    } else {
        kept
    }
}

/// Of no entries the filters leave none.
pub proof fn lemma_retained_of_none(
    find_file: Option<Seq<char>>,
    search_string: Option<Seq<char>>,
)
    ensures
        retained_of(Seq::empty(), find_file, search_string) == Seq::<OccurrenceView>::empty(),
{
    reveal(Seq::filter);
    assert(retained_of(Seq::empty(), find_file, search_string) =~= Seq::<OccurrenceView>::empty());
}

/// Filtering a sequence in two parts gives the two filtered parts.
pub proof fn lemma_retained_of_concat(
    a: Seq<Node>,
    b: Seq<Node>,
    find_file: Option<Seq<char>>,
    search_string: Option<Seq<char>>,
)
    ensures
        retained_of(a + b, find_file, search_string) == retained_of(a, find_file, search_string)
            + retained_of(b, find_file, search_string),
{
    let keep = |node: Node| node.retained(find_file, search_string);
    Seq::filter_distributes_over_add(a, b, keep);
    assert(retained_of(a + b, find_file, search_string) =~= retained_of(
        a,
        find_file,
        search_string,
    ) + retained_of(b, find_file, search_string));
}

/// Of a single entry the filters leave the entry or nothing.
pub proof fn lemma_retained_of_one(
    node: Node,
    find_file: Option<Seq<char>>,
    search_string: Option<Seq<char>>,
)
    ensures
        retained_of(seq![node], find_file, search_string) == if node.retained(
            find_file,
            search_string,
        ) {
            seq![node.occurrence()]
        } else {
            Seq::<OccurrenceView>::empty()
        },
{
    let keep = |node: Node| node.retained(find_file, search_string);
    reveal_with_fuel(Seq::filter, 2);
    assert(seq![node].drop_last() =~= Seq::<Node>::empty());
    assert(seq![node].filter(keep) =~= if keep(node) {
        seq![node]
    } else {
        Seq::<Node>::empty()
    });
    assert(retained_of(seq![node], find_file, search_string) =~= if node.retained(
        find_file,
        search_string,
    ) {
        seq![node.occurrence()]
    } else {
        Seq::<OccurrenceView>::empty()
    });
}

/// The kind of a file with the given name.
pub fn classify(name: Option<&str>) -> (kind: Kind)
    ensures
        kind == kind_of_name(text_of(name)),
{
    match name {
        Some(name) => {
            if ends_with(name, ".txt") || ends_with(name, ".rs") {
                Kind::TextFile
            } else {
                Kind::PlainFile
            }
        },
        None => Kind::PlainFile,
    }
}

impl Node {
    /// The kind of the entry.
    pub fn classify(&self) -> (kind: Kind)
        ensures
            kind == self.kind(),
    {
        match self.is_dir {
            Some(true) => Kind::Directory,
            _ => match &self.name {
                Some(name) => classify(Some(name.as_str())),
                None => classify(None),
            },
        }
    }

    /// What a listing with these filters needs to know of the entry beyond
    /// its path, its name and whether it is a directory. What is not needed
    /// may be left unread.
    pub fn to_read(&self, find_file: Option<&str>, search_string: Option<&str>) -> (reading:
        Reading)
        ensures
            reading == self.reading(text_of(find_file), text_of(search_string)),
    {
        let kind = self.classify();
        if matches!(kind, Kind::Directory) {
            return Reading::Listing;
        }
        if search_string.is_none() || !matches!(kind, Kind::TextFile) {
            return Reading::Nothing;
        }
        let named = match find_file {
            Some(part) => contains(self.path.as_str(), part),
            None => true,
        };
        if named {
            Reading::Content
        } else {
            Reading::Nothing
        }
    }

    /// Whether both filters let the entry pass. The content is looked at
    /// only where the name filter lets a text file pass.
    pub fn retains(&self, find_file: Option<&str>, search_string: Option<&str>) -> (kept: bool)
        ensures
            kept == self.retained(text_of(find_file), text_of(search_string)),
    {
        let kind = self.classify();
        let named = match find_file {
            Some(part) => !matches!(kind, Kind::Directory) && contains(self.path.as_str(), part),
            None => true,
        };
        if !named {
            return false;
        }
        match search_string {
            Some(text) => matches!(kind, Kind::TextFile) && match &self.content {
                Some(content) => search_in_text_file(Some(content.as_str()), text),
                None => search_in_text_file(None, text),
            },
            None => true,
        }
    }
}

/// Lists what lies below `path`: every entry of the directory, and after
/// each entry that is a directory what lies below that one. An entry is
/// left out unless both filters let it pass: with `find_file`, only files
/// whose path contains that text are listed, and no directory; with
/// `search_string`, only text files that hold that text. Where `sort` is
/// set, the entries come in the order of the entries, else in the order of
/// the walk. A path that could not be opened as a directory yields nothing.
pub fn list_files(
    path: &Node,
    find_file: Option<&str>,
    search_string: Option<&str>,
    sort: bool,
) -> (occurrences: Vec<Occurrence>)
    ensures
        occurrences.deep_view() == listed(*path, text_of(find_file), text_of(search_string), sort),
    decreases path,
{
    let ghost find = text_of(find_file);
    let ghost search = text_of(search_string);
    let mut occurrences: Vec<Occurrence> = Vec::new();
    proof {
        assert(occurrences.deep_view() =~= Seq::empty());
        lemma_retained_of_none(find, search);
    }
    if let Some(children) = &path.children {
        let mut i: usize = 0;
        while i < children.len()
            invariant
                i <= children.len(),
                path.children == Some(*children),
                find == text_of(find_file),
                search == text_of(search_string),
                !sort ==> occurrences.deep_view() == retained_of(
                    path.below_first(i as nat),
                    find,
                    search,
                ),
                sort ==> occurrences.deep_view().to_multiset() == retained_of(
                    path.below_first(i as nat),
                    find,
                    search,
                ).to_multiset(),
            decreases children.len() - i,
        {
            let child = &children[i];
            let ghost before = occurrences.deep_view();
            let ghost done = path.below_first(i as nat);
            let ghost deeper = if child.is_directory() {
                child.below()
            } else {
                Seq::empty()
            };
            let kind = child.classify();
            if child.retains(find_file, search_string) {
                occurrences.push(Occurrence::new(kind, child.path.clone()));
            }
            let ghost own = occurrences.deep_view();
            if matches!(kind, Kind::Directory) {
                let mut found = list_files(child, find_file, search_string, sort);
                let ghost inner = found.deep_view();
                occurrences.append(&mut found);
                proof {
                    assert(occurrences.deep_view() =~= own + inner);
                }
            }
            proof {
                let one = retained_of(seq![*child], find, search);
                let rest = retained_of(deeper, find, search);
                assert(path.below_first((i + 1) as nat) == done + seq![*child] + deeper);
                lemma_retained_of_concat(done + seq![*child], deeper, find, search);
                lemma_retained_of_concat(done, seq![*child], find, search);
                lemma_retained_of_one(*child, find, search);
                assert(own =~= before + one);
                if !child.is_directory() {
                    assert(rest =~= Seq::empty());
                    assert(occurrences.deep_view() =~= own + rest);
                }
                if sort {
                    lemma_sorted_is_ascending_permutation(rest);
                    vstd::seq_lib::lemma_multiset_commutative(before, one);
                    vstd::seq_lib::lemma_multiset_commutative(
                        retained_of(done, find, search),
                        one,
                    );
                    vstd::seq_lib::lemma_multiset_commutative(own, rest);
                    vstd::seq_lib::lemma_multiset_commutative(own, sorted(rest));
                    vstd::seq_lib::lemma_multiset_commutative(
                        retained_of(done, find, search) + one,
                        rest,
                    );
                }
            }
            i += 1;
        }
    }
    if sort {
        let ghost gathered = occurrences.deep_view();
        occurrences = crate::sorting::sort(occurrences);
        proof {
            lemma_ascending_permutation_is_sorted(
                sorted(gathered),
                retained_of(path.below(), find, search),
            );
        }
    }
    occurrences
}

} // verus!
