//! What holds of every listing: how the entries are classified, in which
//! order the walk yields them, which entries the filters leave, how a name
//! filter cuts a listing down, what sorting keeps, and that no path is
//! listed twice.

use vstd::prelude::*;
use vstd::seq_lib::*;
use crate::file_search::{lemma_retained_of_concat, lemma_retained_of_none, lemma_retained_of_one,
    listed, name_allows, retained_of, Node};
use crate::occurrence::{Kind, OccurrenceView};
use crate::sorting::{ascending, lemma_ascending_permutation_is_sorted,
    lemma_sorted_filter_commute, lemma_sorted_is_ascending_permutation, sorted};
use crate::text::{text_contains, text_ends_with};

verus! {

/// The name filter as a test on entries.
pub open spec fn name_filter(find_file: Option<Seq<char>>) -> spec_fn(OccurrenceView) -> bool {
    |entry: OccurrenceView| name_allows(entry, find_file)
}

/// The entries that stand for `nodes`, none left out.
pub open spec fn occurrences_of(nodes: Seq<Node>) -> Seq<OccurrenceView> {
    nodes.map_values(|node: Node| node.occurrence())
}

/// Without a filter every entry is kept.
pub proof fn lemma_retained_of_unfiltered(nodes: Seq<Node>)
    ensures
        retained_of(nodes, None, None) == occurrences_of(nodes),
    decreases nodes.len(),
{
    if nodes.len() == 0 {
        lemma_retained_of_none(None, None);
        assert(nodes =~= Seq::empty());
        assert(occurrences_of(nodes) =~= Seq::empty());
    } else {
        let rest = nodes.drop_last();
        lemma_retained_of_unfiltered(rest);
        lemma_retained_of_concat(rest, seq![nodes.last()], None, None);
        lemma_retained_of_one(nodes.last(), None, None);
        assert(nodes =~= rest + seq![nodes.last()]);
        assert(occurrences_of(nodes) =~= occurrences_of(rest) + seq![nodes.last().occurrence()]);
    }
}

/// What passes the name filter and the content filter is what passes the
/// content filter, cut down by the name filter.
pub proof fn lemma_retained_of_by_name(
    nodes: Seq<Node>,
    find_file: Option<Seq<char>>,
    search_string: Option<Seq<char>>,
)
    ensures
        retained_of(nodes, find_file, search_string) == retained_of(
            nodes,
            None,
            search_string,
        ).filter(name_filter(find_file)),
    decreases nodes.len(),
{
    let by_name = name_filter(find_file);
    if nodes.len() == 0 {
        lemma_retained_of_none(find_file, search_string);
        lemma_retained_of_none(None, search_string);
        assert(nodes =~= Seq::empty());
        assert(Seq::<OccurrenceView>::empty().filter(by_name) =~= Seq::empty()) by {
            reveal(Seq::filter);
        }
    } else {
        let rest = nodes.drop_last();
        let last = nodes.last();
        lemma_retained_of_by_name(rest, find_file, search_string);
        assert(nodes =~= rest + seq![last]);
        lemma_retained_of_concat(rest, seq![last], find_file, search_string);
        lemma_retained_of_concat(rest, seq![last], None, search_string);
        lemma_retained_of_one(last, find_file, search_string);
        lemma_retained_of_one(last, None, search_string);
        Seq::filter_distributes_over_add(
            retained_of(rest, None, search_string),
            retained_of(seq![last], None, search_string),
            by_name,
        );
        assert(retained_of(seq![last], None, search_string).filter(by_name) =~= retained_of(
            seq![last],
            find_file,
            search_string,
        )) by {
            reveal_with_fuel(Seq::filter, 2);
            assert(seq![last.occurrence()].drop_last() =~= Seq::<OccurrenceView>::empty());
        }
    }
}

/// Without a filter, and without sorting, a listing holds one entry for
/// each path below the root, in the order of the walk. The entry has the
/// path of what it stands for. It is a directory exactly where the path is
/// known to be one, a text file exactly where the path is no directory and
/// its name ends in `.txt` or `.rs`, and a plain file in every other case.
pub proof fn lemma_unfiltered_listing_classifies(node: Node)
    ensures
        listed(node, None, None, false) == occurrences_of(node.below()),
        listed(node, None, None, false).len() == node.below().len(),
        forall|i: int|
            #![trigger listed(node, None, None, false)[i]]
            0 <= i < node.below().len() ==> {
                let seen = node.below()[i];
                let entry = listed(node, None, None, false)[i];
                let text_name = seen.name is Some && (text_ends_with(seen.name->0@, ".txt"@)
                    || text_ends_with(seen.name->0@, ".rs"@));
                &&& entry.path == seen.path@
                &&& entry.kind == Kind::Directory <==> seen.is_directory()
                &&& entry.kind == Kind::TextFile <==> !seen.is_directory() && text_name
                &&& entry.kind == Kind::PlainFile <==> !seen.is_directory() && !text_name
            },
{
    lemma_retained_of_unfiltered(node.below());
}

/// Sorting changes the order of a listing and nothing else: the sorted
/// listing is the unsorted one put in ascending order, and it holds each
/// entry as often as the unsorted one.
pub proof fn lemma_sorted_listing_is_permutation(
    node: Node,
    find_file: Option<Seq<char>>,
    search_string: Option<Seq<char>>,
)
    ensures
        listed(node, find_file, search_string, true) == sorted(
            listed(node, find_file, search_string, false),
        ),
        ascending(listed(node, find_file, search_string, true)),
        listed(node, find_file, search_string, true).to_multiset() == listed(
            node,
            find_file,
            search_string,
            false,
        ).to_multiset(),
{
    lemma_sorted_is_ascending_permutation(listed(node, find_file, search_string, false));
}

/// A sorted listing does not depend on the order in which the directories
/// list their entries: two trees whose unsorted listings hold the same
/// entries, each as often, have the same sorted listing.
pub proof fn lemma_sorted_listing_ignores_order(
    a: Node,
    b: Node,
    find_file: Option<Seq<char>>,
    search_string: Option<Seq<char>>,
)
    requires
        listed(a, find_file, search_string, false).to_multiset() == listed(
            b,
            find_file,
            search_string,
            false,
        ).to_multiset(),
    ensures
        listed(a, find_file, search_string, true) == listed(b, find_file, search_string, true),
{
    lemma_sorted_is_ascending_permutation(listed(a, find_file, search_string, false));
    lemma_ascending_permutation_is_sorted(
        listed(a, find_file, search_string, true),
        listed(b, find_file, search_string, false),
    );
}

/// A listing with a name filter is the listing without it, cut down to the
/// files whose path contains the text: it holds no directory, every entry
/// of it stands in the listing without the filter, and the entries keep
/// their order.
pub proof fn lemma_name_filter_composes(
    node: Node,
    find_file: Seq<char>,
    search_string: Option<Seq<char>>,
    sort: bool,
)
    ensures
        listed(node, Some(find_file), search_string, sort) == listed(
            node,
            None,
            search_string,
            sort,
        ).filter(name_filter(Some(find_file))),
        forall|i: int|
            #![trigger listed(node, Some(find_file), search_string, sort)[i]]
            0 <= i < listed(node, Some(find_file), search_string, sort).len() ==> {
                let entry = listed(node, Some(find_file), search_string, sort)[i];
                &&& entry.kind != Kind::Directory
                &&& text_contains(entry.path, find_file)
                &&& listed(node, None, search_string, sort).contains(entry)
            },
{
    let by_name = name_filter(Some(find_file));
    let wide = listed(node, None, search_string, sort);
    let narrow = listed(node, Some(find_file), search_string, sort);
    lemma_retained_of_by_name(node.below(), Some(find_file), search_string);
    if sort {
        lemma_sorted_filter_commute(
            retained_of(node.below(), None, search_string),
            by_name,
        );
    }
    assert(narrow == wide.filter(by_name));
    assert forall|i: int| 0 <= i < narrow.len() implies {
        let entry = #[trigger] narrow[i];
        &&& entry.kind != Kind::Directory
        &&& text_contains(entry.path, find_file)
        &&& wide.contains(entry)
    } by {
        wide.lemma_filter_pred(by_name, i);
        assert(wide.filter(by_name).contains(narrow[i]));
        wide.lemma_filter_contains_rev(by_name, narrow[i]);
    }
}

/// In the walk through the first `count` entries of a directory, what lies
/// below a directory follows it directly.
proof fn lemma_below_first_in_walk_order(node: Node, count: nat, i: int)
    requires
        count <= node.listing().len(),
        0 <= i < node.below_first(count).len(),
        node.below_first(count)[i].is_directory(),
    ensures
        i + 1 + node.below_first(count)[i].below().len() <= node.below_first(count).len(),
        node.below_first(count).subrange(i + 1, i + 1 + node.below_first(count)[i].below().len())
            == node.below_first(count)[i].below(),
    decreases node, count,
{
    let whole = node.below_first(count);
    let found = whole[i].below();
    let child = node.listing()[count - 1];
    let before = node.below_first((count - 1) as nat);
    let deeper = if child.is_directory() {
        child.below()
    } else {
        Seq::<Node>::empty()
    };
    assert(whole == before + seq![child] + deeper);
    if i < before.len() {
        lemma_below_first_in_walk_order(node, (count - 1) as nat, i);
        assert(whole.subrange(i + 1, i + 1 + found.len()) =~= before.subrange(
            i + 1,
            i + 1 + found.len(),
        ));
    } else if i == before.len() {
        assert(whole.subrange(i + 1, i + 1 + found.len()) =~= found);
    } else {
        let inner = i - before.len() - 1;
        lemma_below_first_in_walk_order(child, child.listing().len(), inner);
        assert(whole.subrange(i + 1, i + 1 + found.len()) =~= deeper.subrange(
            inner + 1,
            inner + 1 + found.len(),
        ));
    }
}

/// The walk lists each directory before what it holds: what lies below a
/// directory follows the directory directly, in the order of its own walk.
pub proof fn lemma_directory_comes_before_what_it_holds(node: Node, i: int)
    requires
        0 <= i < node.below().len(),
        node.below()[i].is_directory(),
    ensures
        i + 1 + node.below()[i].below().len() <= node.below().len(),
        node.below().subrange(i + 1, i + 1 + node.below()[i].below().len())
            == node.below()[i].below(),
{
    lemma_below_first_in_walk_order(node, node.listing().len(), i);
}

/// The entries of a listing are those that stand for a path below the root
/// which both filters let pass: none is made up and none is left out. With
/// a content filter every entry is a text file, with a name filter none is
/// a directory.
pub proof fn lemma_listing_members(
    node: Node,
    find_file: Option<Seq<char>>,
    search_string: Option<Seq<char>>,
    sort: bool,
)
    ensures
        forall|entry: OccurrenceView| #[trigger]
            listed(node, find_file, search_string, sort).contains(entry) <==> exists|k: int|
                0 <= k < node.below().len() && (#[trigger] node.below()[k]).retained(
                    find_file,
                    search_string,
                ) && node.below()[k].occurrence() == entry,
        search_string is Some ==> forall|i: int|
            0 <= i < listed(node, find_file, search_string, sort).len() ==> (#[trigger] listed(
                node,
                find_file,
                search_string,
                sort,
            )[i]).kind == Kind::TextFile,
        find_file is Some ==> forall|i: int|
            0 <= i < listed(node, find_file, search_string, sort).len() ==> (#[trigger] listed(
                node,
                find_file,
                search_string,
                sort,
            )[i]).kind != Kind::Directory,
{
    let nodes = node.below();
    let keep = |node: Node| node.retained(find_file, search_string);
    let passed = nodes.filter(keep);
    let kept = retained_of(nodes, find_file, search_string);
    let result = listed(node, find_file, search_string, sort);
    assert forall|entry: OccurrenceView| #[trigger] kept.contains(entry) implies exists|k: int|
        0 <= k < nodes.len() && (#[trigger] nodes[k]).retained(find_file, search_string)
            && nodes[k].occurrence() == entry by {
        let i = choose|i: int| 0 <= i < kept.len() && kept[i] == entry;
        nodes.lemma_filter_pred(keep, i);
        assert(passed.contains(passed[i]));
        nodes.lemma_filter_contains_rev(keep, passed[i]);
        let k = choose|k: int| 0 <= k < nodes.len() && nodes[k] == passed[i];
        assert(nodes[k].retained(find_file, search_string) && nodes[k].occurrence() == entry);
    }
    assert forall|entry: OccurrenceView|
        (exists|k: int|
            0 <= k < nodes.len() && (#[trigger] nodes[k]).retained(find_file, search_string)
                && nodes[k].occurrence() == entry) implies #[trigger] kept.contains(entry) by {
        let k = choose|k: int|
            0 <= k < nodes.len() && (#[trigger] nodes[k]).retained(find_file, search_string)
                && nodes[k].occurrence() == entry;
        assert(keep(nodes[k]));
        nodes.lemma_filter_contains(keep, k);
        let j = choose|j: int| 0 <= j < passed.len() && passed[j] == nodes[k];
        assert(kept[j] == entry);
    }
    if sort {
        lemma_sorted_is_ascending_permutation(kept);
        assert forall|entry: OccurrenceView| #[trigger]
            result.contains(entry) <==> kept.contains(entry) by {
            to_multiset_contains(result, entry);
            to_multiset_contains(kept, entry);
        }
    }
    assert forall|i: int| 0 <= i < result.len() implies (search_string is Some ==> (
    #[trigger] result[i]).kind == Kind::TextFile) && (find_file is Some ==> result[i].kind
        != Kind::Directory) by {
        assert(result.contains(result[i]));
        assert(kept.contains(result[i]));
    }
}

/// No two of `nodes` have the same path.
pub open spec fn distinct_paths(nodes: Seq<Node>) -> bool {
    forall|i: int, j: int|
        0 <= i < j < nodes.len() ==> (#[trigger] nodes[i]).path@ != (#[trigger] nodes[j]).path@
}

/// No two of `entries` have the same path.
pub open spec fn distinct_entry_paths(entries: Seq<OccurrenceView>) -> bool {
    forall|i: int, j: int|
        0 <= i < j < entries.len() ==> (#[trigger] entries[i]).path != (#[trigger] entries[j]).path
}

/// Every entry that the filters leave stands for one of `nodes`, and where
/// no two of `nodes` have the same path, no two of the entries have.
proof fn lemma_retained_of_distinct(
    nodes: Seq<Node>,
    find_file: Option<Seq<char>>,
    search_string: Option<Seq<char>>,
)
    requires
        distinct_paths(nodes),
    ensures
        distinct_entry_paths(retained_of(nodes, find_file, search_string)),
        forall|i: int|
            0 <= i < retained_of(nodes, find_file, search_string).len() ==> exists|k: int|
                0 <= k < nodes.len() && nodes[k].occurrence() == #[trigger] retained_of(
                    nodes,
                    find_file,
                    search_string,
                )[i],
    decreases nodes.len(),
{
    let kept = retained_of(nodes, find_file, search_string);
    if nodes.len() == 0 {
        lemma_retained_of_none(find_file, search_string);
        assert(nodes =~= Seq::empty());
    } else {
        let rest = nodes.drop_last();
        let last = nodes.last();
        let before = retained_of(rest, find_file, search_string);
        assert(distinct_paths(rest)) by {
            assert forall|i: int, j: int| 0 <= i < j < rest.len() implies (#[trigger] rest[i]).path@
                != (#[trigger] rest[j]).path@ by {
                assert(nodes[i].path@ != nodes[j].path@);
            }
        }
        lemma_retained_of_distinct(rest, find_file, search_string);
        assert(nodes =~= rest + seq![last]);
        lemma_retained_of_concat(rest, seq![last], find_file, search_string);
        lemma_retained_of_one(last, find_file, search_string);
        assert forall|i: int| 0 <= i < kept.len() implies exists|k: int|
            0 <= k < nodes.len() && nodes[k].occurrence() == #[trigger] kept[i] by {
            if i < before.len() {
                let k = choose|k: int| 0 <= k < rest.len() && rest[k].occurrence() == before[i];
                assert(nodes[k].occurrence() == kept[i]);
            } else {
                assert(nodes[nodes.len() - 1].occurrence() == kept[i]);
            }
        }
        assert forall|i: int, j: int| 0 <= i < j < kept.len() implies (#[trigger] kept[i]).path != (
        #[trigger] kept[j]).path by {
            if j < before.len() {
                assert(before[i].path != before[j].path);
            } else {
                let k = choose|k: int| 0 <= k < rest.len() && rest[k].occurrence() == before[i];
                assert(nodes[k].path@ != nodes[nodes.len() - 1].path@);
            }
        }
    }
}

/// A path stands in a listing once at most, and so as one kind only, where
/// each path was seen once: where no two of the paths below the root are
/// the same, no two entries of the listing have the same path.
pub proof fn lemma_listing_has_each_path_once(
    node: Node,
    find_file: Option<Seq<char>>,
    search_string: Option<Seq<char>>,
    sort: bool,
)
    requires
        distinct_paths(node.below()),
    ensures
        distinct_entry_paths(listed(node, find_file, search_string, sort)),
{
    let kept = retained_of(node.below(), find_file, search_string);
    lemma_retained_of_distinct(node.below(), find_file, search_string);
    if sort {
        let ordered = sorted(kept);
        lemma_sorted_is_ascending_permutation(kept);
        assert(kept.no_duplicates());
        kept.lemma_multiset_has_no_duplicates();
        ordered.lemma_multiset_has_no_duplicates_conv();
        assert forall|i: int, j: int| 0 <= i < j < ordered.len() implies (#[trigger] ordered[i]).path
            != (#[trigger] ordered[j]).path by {
            to_multiset_contains(ordered, ordered[i]);
            to_multiset_contains(ordered, ordered[j]);
            to_multiset_contains(kept, ordered[i]);
            to_multiset_contains(kept, ordered[j]);
            assert(ordered.contains(ordered[i]));
            assert(ordered.contains(ordered[j]));
            let k = choose|k: int| 0 <= k < kept.len() && kept[k] == ordered[i];
            let l = choose|l: int| 0 <= l < kept.len() && kept[l] == ordered[j];
            assert(ordered[i] != ordered[j]);
            if k < l {
                assert(kept[k].path != kept[l].path);
            } else {
                assert(kept[l].path != kept[k].path);
            }
        }
    }
}

} // verus!
