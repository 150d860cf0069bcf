//! Sorting of entries by the order of the entries.

use vstd::prelude::*;
use vstd::multiset::Multiset;
use vstd::relations::*;
use vstd::seq_lib::*;
use crate::occurrence::{lemma_occurrence_order_total, occurrence_le, occurrence_order, Occurrence,
    OccurrenceView};

verus! {

/// The entries of `s` stand in ascending order.
pub open spec fn ascending(s: Seq<OccurrenceView>) -> bool {
    sorted_by(s, occurrence_order())
}

/// The entries of `s` stand in descending order.
spec fn descending(s: Seq<OccurrenceView>) -> bool {
    forall|i: int, j: int| 0 <= i < j < s.len() ==> occurrence_le(#[trigger] s[j], #[trigger] s[i])
}

/// Every entry of `low` comes before or with every entry of `high`.
spec fn all_le(low: Seq<OccurrenceView>, high: Seq<OccurrenceView>) -> bool {
    forall|i: int, k: int|
        0 <= i < low.len() && 0 <= k < high.len() ==> occurrence_le(
            #[trigger] low[i],
            #[trigger] high[k],
        )
}

/// The sorted form of `s`: the one sequence in ascending order that holds
/// the entries of `s`, each as often as `s` holds it.
pub open spec fn sorted(s: Seq<OccurrenceView>) -> Seq<OccurrenceView> {
    s.sort_by(occurrence_order())
}

/// What [`sorted`] yields is in ascending order and holds the same entries.
pub proof fn lemma_sorted_is_ascending_permutation(s: Seq<OccurrenceView>)
    ensures
        ascending(sorted(s)),
        sorted(s).to_multiset() == s.to_multiset(),
        sorted(s).len() == s.len(),
{
    lemma_occurrence_order_total();
    s.lemma_sort_by_ensures(occurrence_order());
    sorted(s).to_multiset_ensures();
    s.to_multiset_ensures();
}

/// A sequence in ascending order that holds the same entries as `s` is the
/// sorted form of `s`.
pub proof fn lemma_ascending_permutation_is_sorted(t: Seq<OccurrenceView>, s: Seq<OccurrenceView>)
    requires
        ascending(t),
        t.to_multiset() == s.to_multiset(),
    ensures
        t == sorted(s),
{
    lemma_occurrence_order_total();
    lemma_sorted_is_ascending_permutation(s);
    lemma_sorted_unique(t, sorted(s), occurrence_order());
}

/// The entries that pass a test, counted: each entry of `s` that passes is
/// kept as often as `s` holds it, and no other.
pub proof fn lemma_filter_multiset(s: Seq<OccurrenceView>, keep: spec_fn(OccurrenceView) -> bool)
    ensures
        s.filter(keep).to_multiset() == s.to_multiset().filter(keep),
    decreases s.len(),
{
    reveal(Seq::filter);
    if s.len() == 0 {
        lemma_empty_multiset(s);
        assert(s.filter(keep).to_multiset() =~= s.to_multiset().filter(keep));
    } else {
        let rest = s.drop_last();
        lemma_filter_multiset(rest, keep);
        assert(s =~= rest.push(s.last()));
        to_multiset_build(rest, s.last());
        to_multiset_build(rest.filter(keep), s.last());
        assert(s.filter(keep).to_multiset() =~= s.to_multiset().filter(keep));
    }
}

/// Leaving entries out of a sequence in ascending order keeps it in
/// ascending order.
pub proof fn lemma_filter_keeps_ascending(
    s: Seq<OccurrenceView>,
    keep: spec_fn(OccurrenceView) -> bool,
)
    requires
        ascending(s),
    ensures
        ascending(s.filter(keep)),
    decreases s.len(),
{
    reveal(Seq::filter);
    if s.len() > 0 {
        let order = occurrence_order();
        let rest = s.drop_last();
        let kept = rest.filter(keep);
        assert forall|i: int, j: int| 0 <= i < j < rest.len() implies #[trigger] order(
            rest[i],
            rest[j],
        ) by {
            assert(order(s[i], s[j]));
        }
        lemma_filter_keeps_ascending(rest, keep);
        if keep(s.last()) {
            assert forall|i: int, j: int| 0 <= i < j < s.filter(keep).len() implies #[trigger] order(
                s.filter(keep)[i],
                s.filter(keep)[j],
            ) by {
                if j < kept.len() {
                    assert(order(kept[i], kept[j]));
                } else {
                    assert(kept.contains(kept[i]));
                    rest.lemma_filter_contains_rev(keep, kept[i]);
                    let k = choose|k: int| 0 <= k < rest.len() && rest[k] == kept[i];
                    assert(order(s[k], s[s.len() - 1]));
                }
            }
        }
    }
}

/// To sort and then leave entries out is to leave them out and then sort.
pub proof fn lemma_sorted_filter_commute(
    s: Seq<OccurrenceView>,
    keep: spec_fn(OccurrenceView) -> bool,
)
    ensures
        sorted(s).filter(keep) == sorted(s.filter(keep)),
{
    lemma_sorted_is_ascending_permutation(s);
    lemma_filter_keeps_ascending(sorted(s), keep);
    lemma_filter_multiset(sorted(s), keep);
    lemma_filter_multiset(s, keep);
    lemma_ascending_permutation_is_sorted(sorted(s).filter(keep), s.filter(keep));
}

/// A sequence without entries has the empty multiset.
proof fn lemma_empty_multiset(s: Seq<OccurrenceView>)
    requires
        s.len() == 0,
    ensures
        s.to_multiset() == Multiset::<OccurrenceView>::empty(),
{
    s.to_multiset_ensures();
    assert(s.to_multiset() =~= Multiset::<OccurrenceView>::empty());
}

/// Merges two vectors in ascending order into one.
fn merge(left: Vec<Occurrence>, right: Vec<Occurrence>) -> (merged: Vec<Occurrence>)
    requires
        ascending(left.deep_view()),
        ascending(right.deep_view()),
    ensures
        ascending(merged.deep_view()),
        merged.deep_view().to_multiset() == left.deep_view().to_multiset().add(
            right.deep_view().to_multiset(),
        ),
{
    let ghost total = left.deep_view().to_multiset().add(right.deep_view().to_multiset());
    let mut left = left;
    let mut right = right;
    let mut reversed: Vec<Occurrence> = Vec::new();
    proof {
        lemma_occurrence_order_total();
        assert(reversed.deep_view() =~= Seq::empty());
        lemma_empty_multiset(reversed.deep_view());
        assert(total =~= left.deep_view().to_multiset().add(right.deep_view().to_multiset()).add(
            reversed.deep_view().to_multiset(),
        ));
    }
    while left.len() > 0 || right.len() > 0
        invariant
            total_ordering(occurrence_order()),
            ascending(left.deep_view()),
            ascending(right.deep_view()),
            descending(reversed.deep_view()),
            all_le(left.deep_view(), reversed.deep_view()),
            all_le(right.deep_view(), reversed.deep_view()),
            total == left.deep_view().to_multiset().add(right.deep_view().to_multiset()).add(
                reversed.deep_view().to_multiset(),
            ),
        decreases left.len() + right.len(),
    {
        let ghost before_left = left.deep_view();
        let ghost before_right = right.deep_view();
        let ghost before_reversed = reversed.deep_view();
        let from_right = if right.len() == 0 {
            false
        } else if left.len() == 0 {
            true
        } else {
            left[left.len() - 1].le(&right[right.len() - 1])
        };
        let item = if from_right {
            right.pop().unwrap()
        } else {
            left.pop().unwrap()
        };
        reversed.push(item);
        proof {
            let order = occurrence_order();
            assert(reversed.deep_view() =~= before_reversed.push(item@));
            to_multiset_build(before_reversed, item@);
            if from_right {
                assert(left.deep_view() == before_left);
                assert(right.deep_view() =~= before_right.drop_last());
                assert(before_right =~= right.deep_view().push(item@));
                to_multiset_build(right.deep_view(), item@);
                assert(item@ == before_right[before_right.len() - 1]);
                assert forall|i: int| 0 <= i < left.deep_view().len() implies occurrence_le(
                    #[trigger] left.deep_view()[i],
                    item@,
                ) by {
                    let last = before_left[before_left.len() - 1];
                    assert(order(last, item@));
                    if i < before_left.len() - 1 {
                        assert(order(before_left[i], last));
                    }
                    assert(order(before_left[i], item@));
                }
                assert forall|i: int| 0 <= i < right.deep_view().len() implies occurrence_le(
                    #[trigger] right.deep_view()[i],
                    item@,
                ) by {
                    assert(order(before_right[i], before_right[before_right.len() - 1]));
                }
            } else {
                assert(right.deep_view() == before_right);
                assert(left.deep_view() =~= before_left.drop_last());
                assert(before_left =~= left.deep_view().push(item@));
                to_multiset_build(left.deep_view(), item@);
                assert(item@ == before_left[before_left.len() - 1]);
                assert forall|i: int| 0 <= i < right.deep_view().len() implies occurrence_le(
                    #[trigger] right.deep_view()[i],
                    item@,
                ) by {
                    let last = before_right[before_right.len() - 1];
                    assert(order(item@, last) || order(last, item@));
                    assert(order(last, item@));
                    if i < before_right.len() - 1 {
                        assert(order(before_right[i], last));
                    }
                    assert(order(before_right[i], item@));
                }
                assert forall|i: int| 0 <= i < left.deep_view().len() implies occurrence_le(
                    #[trigger] left.deep_view()[i],
                    item@,
                ) by {
                    assert(order(before_left[i], before_left[before_left.len() - 1]));
                }
            }
            assert(descending(reversed.deep_view())) by {
                assert forall|i: int, j: int|
                    0 <= i < j < reversed.deep_view().len() implies occurrence_le(
                    #[trigger] reversed.deep_view()[j],
                    #[trigger] reversed.deep_view()[i],
                ) by {
                    if j < before_reversed.len() {
                        assert(occurrence_le(before_reversed[j], before_reversed[i]));
                    } else {
                        assert(order(item@, item@));
                        if from_right {
                            assert(occurrence_le(
                                before_right[before_right.len() - 1],
                                before_reversed[i],
                            ));
                        } else {
                            assert(occurrence_le(
                                before_left[before_left.len() - 1],
                                before_reversed[i],
                            ));
                        }
                    }
                }
            }
            assert(all_le(left.deep_view(), reversed.deep_view())) by {
                assert forall|i: int, k: int|
                    0 <= i < left.deep_view().len() && 0 <= k < reversed.deep_view().len()
                    implies occurrence_le(
                    #[trigger] left.deep_view()[i],
                    #[trigger] reversed.deep_view()[k],
                ) by {
                    if k < before_reversed.len() {
                        assert(occurrence_le(before_left[i], before_reversed[k]));
                    }
                }
            }
            assert(all_le(right.deep_view(), reversed.deep_view())) by {
                assert forall|i: int, k: int|
                    0 <= i < right.deep_view().len() && 0 <= k < reversed.deep_view().len()
                    implies occurrence_le(
                    #[trigger] right.deep_view()[i],
                    #[trigger] reversed.deep_view()[k],
                ) by {
                    if k < before_reversed.len() {
                        assert(occurrence_le(before_right[i], before_reversed[k]));
                    }
                }
            }
            assert(total =~= left.deep_view().to_multiset().add(
                right.deep_view().to_multiset(),
            ).add(reversed.deep_view().to_multiset()));
        }
    }
    let mut merged: Vec<Occurrence> = Vec::new();
    proof {
        lemma_empty_multiset(merged.deep_view());
        lemma_empty_multiset(left.deep_view());
        lemma_empty_multiset(right.deep_view());
        assert(total =~= merged.deep_view().to_multiset().add(reversed.deep_view().to_multiset()));
    }
    while reversed.len() > 0
        invariant
            total_ordering(occurrence_order()),
            descending(reversed.deep_view()),
            ascending(merged.deep_view()),
            all_le(merged.deep_view(), reversed.deep_view()),
            total == merged.deep_view().to_multiset().add(reversed.deep_view().to_multiset()),
        decreases reversed.len(),
    {
        let ghost before_merged = merged.deep_view();
        let ghost before_reversed = reversed.deep_view();
        let item = reversed.pop().unwrap();
        merged.push(item);
        proof {
            let order = occurrence_order();
            assert(merged.deep_view() =~= before_merged.push(item@));
            assert(reversed.deep_view() =~= before_reversed.drop_last());
            assert(before_reversed =~= reversed.deep_view().push(item@));
            to_multiset_build(before_merged, item@);
            to_multiset_build(reversed.deep_view(), item@);
            assert(item@ == before_reversed[before_reversed.len() - 1]);
            assert(ascending(merged.deep_view())) by {
                assert forall|i: int, j: int|
                    0 <= i < j < merged.deep_view().len() implies #[trigger] order(
                    merged.deep_view()[i],
                    merged.deep_view()[j],
                ) by {
                    if j < before_merged.len() {
                        assert(order(before_merged[i], before_merged[j]));
                    } else {
                        assert(occurrence_le(
                            before_merged[i],
                            before_reversed[before_reversed.len() - 1],
                        ));
                    }
                }
            }
            assert(all_le(merged.deep_view(), reversed.deep_view())) by {
                assert forall|i: int, k: int|
                    0 <= i < merged.deep_view().len() && 0 <= k < reversed.deep_view().len()
                    implies occurrence_le(
                    #[trigger] merged.deep_view()[i],
                    #[trigger] reversed.deep_view()[k],
                ) by {
                    if i < before_merged.len() {
                        assert(occurrence_le(before_merged[i], before_reversed[k]));
                    } else {
                        assert(occurrence_le(
                            before_reversed[before_reversed.len() - 1],
                            before_reversed[k],
                        ));
                    }
                }
            }
            assert(total =~= merged.deep_view().to_multiset().add(
                reversed.deep_view().to_multiset(),
            ));
        }
    }
    proof {
        lemma_empty_multiset(reversed.deep_view());
        assert(total =~= merged.deep_view().to_multiset());
    }
    merged
}

/// Sorts the entries by a merge sort.
fn merge_sort(occurrences: Vec<Occurrence>) -> (result: Vec<Occurrence>)
    ensures
        ascending(result.deep_view()),
        result.deep_view().to_multiset() == occurrences.deep_view().to_multiset(),
    decreases occurrences.len(),
{
    if occurrences.len() <= 1 {
        return occurrences;
    }
    let ghost whole = occurrences.deep_view();
    let middle: usize = occurrences.len() / 2;
    let mut left = occurrences;
    let right = left.split_off(middle);
    proof {
        assert(whole =~= left.deep_view() + right.deep_view());
        lemma_multiset_commutative(left.deep_view(), right.deep_view());
    }
    let left = merge_sort(left);
    let right = merge_sort(right);
    merge(left, right)
}

/// Sorts the entries: by kind first, then by path. The result is in
/// ascending order and holds each entry as often as `occurrences` held it.
pub fn sort(occurrences: Vec<Occurrence>) -> (result: Vec<Occurrence>)
    ensures
        result.deep_view() == sorted(occurrences.deep_view()),
        ascending(result.deep_view()),
        result.deep_view().to_multiset() == occurrences.deep_view().to_multiset(),
{
    let ghost given = occurrences.deep_view();
    let result = merge_sort(occurrences);
    proof {
        lemma_ascending_permutation_is_sorted(result.deep_view(), given);
    }
    result
}

} // verus!
