//! When two trees yield the same listing: always where the same was seen at
//! every path in the same order, and for a sorted listing also where the
//! directories listed their entries in another order. What a file holds
//! counts only where the filters make the listing depend on it.

use vstd::prelude::*;
use vstd::multiset::Multiset;
use vstd::seq_lib::*;
use crate::composition::lemma_sorted_listing_ignores_order;
use crate::file_search::{lemma_retained_of_concat, lemma_retained_of_none, lemma_retained_of_one,
    listed, retained_of, Node};
use crate::occurrence::OccurrenceView;

verus! {

/// The same was seen at the two paths themselves, whatever lies below them.
/// What the files hold is compared only where it bears on a listing with
/// the two filters.
pub open spec fn same_entry(
    a: Node,
    b: Node,
    find_file: Option<Seq<char>>,
    search_string: Option<Seq<char>>,
) -> bool {
    &&& a.path@ == b.path@
    &&& a.is_dir == b.is_dir
    &&& a.content_decides(find_file, search_string) ==> a.text() == b.text()
    &&& match (a.name, b.name) {
        (Some(a_name), Some(b_name)) => a_name@ == b_name@,
        (None, None) => true,
        _ => false,
    }
}

/// The same was seen at every path below `a` and below `b`, in the same
/// order.
pub open spec fn same_tree(
    a: Node,
    b: Node,
    find_file: Option<Seq<char>>,
    search_string: Option<Seq<char>>,
) -> bool
    decreases a,
{
    &&& a.listing().len() == b.listing().len()
    &&& forall|i: int|
        0 <= i < a.listing().len() ==> {
            &&& same_entry(#[trigger] a.listing()[i], b.listing()[i], find_file, search_string)
            &&& same_tree(a.listing()[i], b.listing()[i], find_file, search_string)
        }
}

/// `places` names each of the numbers below `count` once.
pub open spec fn is_rearrangement(places: Seq<int>, count: nat) -> bool {
    &&& places.len() == count
    &&& forall|i: int| 0 <= i < count ==> 0 <= #[trigger] places[i] < count
    &&& forall|i: int, j: int| 0 <= i < j < count ==> #[trigger] places[i] != #[trigger] places[j]
}

/// The same was seen at every path below `a` and below `b`, but the
/// directories may have listed their entries in another order.
pub open spec fn same_tree_reordered(
    a: Node,
    b: Node,
    find_file: Option<Seq<char>>,
    search_string: Option<Seq<char>>,
) -> bool
    decreases a,
{
    &&& a.listing().len() == b.listing().len()
    &&& exists|places: Seq<int>|
        {
            &&& is_rearrangement(places, a.listing().len())
            &&& forall|i: int|
                0 <= i < a.listing().len() ==> {
                    &&& same_entry(
                        #[trigger] a.listing()[i],
                        b.listing()[places[i]],
                        find_file,
                        search_string,
                    )
                    &&& same_tree_reordered(
                        a.listing()[i],
                        b.listing()[places[i]],
                        find_file,
                        search_string,
                    )
                }
        }
}

/// The entry of a directory and what lies below it.
spec fn with_below(child: Node) -> Seq<Node> {
    seq![child] + if child.is_directory() {
        child.below()
    } else {
        Seq::empty()
    }
}

/// What the entry `child` of a directory adds to a listing, counted.
spec fn share(
    child: Node,
    find_file: Option<Seq<char>>,
    search_string: Option<Seq<char>>,
) -> Multiset<OccurrenceView> {
    retained_of(with_below(child), find_file, search_string).to_multiset()
}

/// What each entry of the directory `node` adds to a listing.
spec fn shares(
    node: Node,
    find_file: Option<Seq<char>>,
    search_string: Option<Seq<char>>,
) -> Seq<Multiset<OccurrenceView>> {
    Seq::new(node.listing().len(), |i: int| share(node.listing()[i], find_file, search_string))
}

/// All the parts together.
spec fn total(parts: Seq<Multiset<OccurrenceView>>) -> Multiset<OccurrenceView>
    decreases parts.len(),
{
    if parts.len() == 0 {
        Multiset::empty()
    } else {
        total(parts.drop_last()).add(parts.last())
    }
}

proof fn lemma_total_remove(parts: Seq<Multiset<OccurrenceView>>, k: int)
    requires
        0 <= k < parts.len(),
    ensures
        total(parts) == total(parts.remove(k)).add(parts[k]),
    decreases parts.len(),
{
    if k == parts.len() - 1 {
        assert(parts.remove(k) =~= parts.drop_last());
    } else {
        lemma_total_remove(parts.drop_last(), k);
        assert(parts.remove(k).drop_last() =~= parts.drop_last().remove(k));
        assert(parts.remove(k).last() == parts.last());
        assert(total(parts) =~= total(parts.remove(k)).add(parts[k]));
    }
}

proof fn lemma_total_rearranged(
    x: Seq<Multiset<OccurrenceView>>,
    y: Seq<Multiset<OccurrenceView>>,
    places: Seq<int>,
)
    requires
        is_rearrangement(places, x.len()),
        y.len() == x.len(),
        forall|i: int| 0 <= i < x.len() ==> #[trigger] x[i] == y[places[i]],
    ensures
        total(x) == total(y),
    decreases x.len(),
{
    if x.len() > 0 {
        let n = x.len() - 1;
        let k = places[n];
        let moved = Seq::new(
            n as nat,
            |i: int|
                if places[i] < k {
                    places[i]
                } else {
                    places[i] - 1
                },
        );
        let rest = y.remove(k);
        assert forall|i: int| 0 <= i < n implies 0 <= #[trigger] moved[i] < n by {
            assert(places[i] != places[n]);
        }
        assert forall|i: int, j: int| 0 <= i < j < n implies #[trigger] moved[i]
            != #[trigger] moved[j] by {
            assert(places[i] != places[j]);
            assert(places[i] != places[n]);
            assert(places[j] != places[n]);
        }
        assert forall|i: int| 0 <= i < n implies #[trigger] x.drop_last()[i] == rest[moved[i]] by {
            assert(places[i] != places[n]);
            assert(x[i] == y[places[i]]);
        }
        lemma_total_rearranged(x.drop_last(), rest, moved);
        lemma_total_remove(y, k);
        assert(x[n] == y[k]);
    }
}

proof fn lemma_below_first_total(
    node: Node,
    count: nat,
    find_file: Option<Seq<char>>,
    search_string: Option<Seq<char>>,
)
    requires
        count <= node.listing().len(),
    ensures
        retained_of(node.below_first(count), find_file, search_string).to_multiset() == total(
            shares(node, find_file, search_string).take(count as int),
        ),
    decreases count,
{
    let parts = shares(node, find_file, search_string);
    if count == 0 {
        lemma_retained_of_none(find_file, search_string);
        Seq::<OccurrenceView>::empty().to_multiset_ensures();
        assert(Seq::<OccurrenceView>::empty().to_multiset() =~= Multiset::empty());
    } else {
        let child = node.listing()[count - 1];
        let before = node.below_first((count - 1) as nat);
        lemma_below_first_total(node, (count - 1) as nat, find_file, search_string);
        assert(node.below_first(count) =~= before + with_below(child));
        lemma_retained_of_concat(before, with_below(child), find_file, search_string);
        lemma_multiset_commutative(
            retained_of(before, find_file, search_string),
            retained_of(with_below(child), find_file, search_string),
        );
        assert(parts.take(count as int).drop_last() =~= parts.take(count - 1));
        assert(parts.take(count as int).last() == share(child, find_file, search_string));
    }
}

proof fn lemma_share_of_same(
    a: Node,
    b: Node,
    find_file: Option<Seq<char>>,
    search_string: Option<Seq<char>>,
)
    requires
        same_entry(a, b, find_file, search_string),
        a.is_directory() ==> retained_of(a.below(), find_file, search_string).to_multiset()
            == retained_of(b.below(), find_file, search_string).to_multiset(),
    ensures
        share(a, find_file, search_string) == share(b, find_file, search_string),
{
    let deeper_a = if a.is_directory() {
        a.below()
    } else {
        Seq::empty()
    };
    let deeper_b = if b.is_directory() {
        b.below()
    } else {
        Seq::empty()
    };
    assert(a.occurrence() == b.occurrence());
    assert(a.retained(find_file, search_string) == b.retained(find_file, search_string));
    lemma_retained_of_concat(seq![a], deeper_a, find_file, search_string);
    lemma_retained_of_concat(seq![b], deeper_b, find_file, search_string);
    lemma_retained_of_one(a, find_file, search_string);
    lemma_retained_of_one(b, find_file, search_string);
    lemma_multiset_commutative(
        retained_of(seq![a], find_file, search_string),
        retained_of(deeper_a, find_file, search_string),
    );
    lemma_multiset_commutative(
        retained_of(seq![b], find_file, search_string),
        retained_of(deeper_b, find_file, search_string),
    );
    if !a.is_directory() {
        assert(retained_of(deeper_a, find_file, search_string) =~= retained_of(
            deeper_b,
            find_file,
            search_string,
        ));
    }
}

/// Two trees that differ only in the order in which the directories list
/// their entries hold the same entries for a listing, each as often.
pub proof fn lemma_reordered_tree_same_entries(
    a: Node,
    b: Node,
    find_file: Option<Seq<char>>,
    search_string: Option<Seq<char>>,
)
    requires
        same_tree_reordered(a, b, find_file, search_string),
    ensures
        listed(a, find_file, search_string, false).to_multiset() == listed(
            b,
            find_file,
            search_string,
            false,
        ).to_multiset(),
    decreases a,
{
    let n = a.listing().len();
    let places = choose|places: Seq<int>|
        {
            &&& is_rearrangement(places, n)
            &&& forall|i: int|
                0 <= i < n ==> {
                    &&& same_entry(
                        #[trigger] a.listing()[i],
                        b.listing()[places[i]],
                        find_file,
                        search_string,
                    )
                    &&& same_tree_reordered(
                        a.listing()[i],
                        b.listing()[places[i]],
                        find_file,
                        search_string,
                    )
                }
        };
    let of_a = shares(a, find_file, search_string);
    let of_b = shares(b, find_file, search_string);
    assert forall|i: int| 0 <= i < n implies #[trigger] of_a[i] == of_b[places[i]] by {
        let x = a.listing()[i];
        let y = b.listing()[places[i]];
        assert(same_entry(x, y, find_file, search_string));
        lemma_reordered_tree_same_entries(x, y, find_file, search_string);
        lemma_share_of_same(x, y, find_file, search_string);
    }
    lemma_total_rearranged(of_a, of_b, places);
    lemma_below_first_total(a, n, find_file, search_string);
    lemma_below_first_total(b, n, find_file, search_string);
    assert(of_a.take(n as int) =~= of_a);
    assert(of_b.take(n as int) =~= of_b);
}

/// A sorted listing is the same however the directories order their
/// entries: two trees in which the same was seen at every path, in whatever
/// order, have the same sorted listing.
pub proof fn lemma_sorted_listing_of_reordered_tree(
    a: Node,
    b: Node,
    find_file: Option<Seq<char>>,
    search_string: Option<Seq<char>>,
)
    requires
        same_tree_reordered(a, b, find_file, search_string),
    ensures
        listed(a, find_file, search_string, true) == listed(b, find_file, search_string, true),
{
    lemma_reordered_tree_same_entries(a, b, find_file, search_string);
    lemma_sorted_listing_ignores_order(a, b, find_file, search_string);
}

proof fn lemma_same_tree_below_first(
    a: Node,
    b: Node,
    count: nat,
    find_file: Option<Seq<char>>,
    search_string: Option<Seq<char>>,
)
    requires
        same_tree(a, b, find_file, search_string),
        count <= a.listing().len(),
    ensures
        retained_of(a.below_first(count), find_file, search_string) == retained_of(
            b.below_first(count),
            find_file,
            search_string,
        ),
    decreases a, count,
{
    if count == 0 {
        assert(a.below_first(0) =~= b.below_first(0));
    } else {
        let x = a.listing()[count - 1];
        let y = b.listing()[count - 1];
        assert(same_entry(x, y, find_file, search_string) && same_tree(
            x,
            y,
            find_file,
            search_string,
        ));
        let deeper_x = if x.is_directory() {
            x.below()
        } else {
            Seq::empty()
        };
        let deeper_y = if y.is_directory() {
            y.below()
        } else {
            Seq::empty()
        };
        lemma_same_tree_below_first(a, b, (count - 1) as nat, find_file, search_string);
        lemma_same_tree_below_first(x, y, x.listing().len(), find_file, search_string);
        assert(x.occurrence() == y.occurrence());
        assert(x.retained(find_file, search_string) == y.retained(find_file, search_string));
        let before_a = a.below_first((count - 1) as nat);
        let before_b = b.below_first((count - 1) as nat);
        lemma_retained_of_concat(before_a + seq![x], deeper_x, find_file, search_string);
        lemma_retained_of_concat(before_a, seq![x], find_file, search_string);
        lemma_retained_of_concat(before_b + seq![y], deeper_y, find_file, search_string);
        lemma_retained_of_concat(before_b, seq![y], find_file, search_string);
        lemma_retained_of_one(x, find_file, search_string);
        lemma_retained_of_one(y, find_file, search_string);
        if !x.is_directory() {
            assert(retained_of(deeper_x, find_file, search_string) =~= retained_of(
                deeper_y,
                find_file,
                search_string,
            ));
        }
    }
}

/// A listing depends on nothing but what was seen: two trees in which the
/// same was seen at every path, in the same order, have the same listing,
/// sorted or not. They may differ in what a file holds where
/// [`Node::to_read`] does not ask for the content.
pub proof fn lemma_listing_of_same_tree(
    a: Node,
    b: Node,
    find_file: Option<Seq<char>>,
    search_string: Option<Seq<char>>,
    sort: bool,
)
    requires
        same_tree(a, b, find_file, search_string),
    ensures
        listed(a, find_file, search_string, sort) == listed(b, find_file, search_string, sort),
{
    lemma_same_tree_below_first(a, b, a.listing().len(), find_file, search_string);
}

} // verus!
