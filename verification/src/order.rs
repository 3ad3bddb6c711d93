//! Ordering positions by a key.

use itertools::Itertools;
use vstd::prelude::*;
use vstd::relations::{
    antisymmetric, reflexive, sorted_by, strongly_connected, total_ordering, transitive,
};
use vstd::seq_lib::lemma_sorted_unique;

verus! {

/// A key, and the position that it was computed for.
pub type Keyed = (i128, usize);

/// `output` holds the items of `input` in ascending order of their keys, and
/// items with equal keys in the order in which `input` has them.
pub open spec fn stably_sorted(input: Seq<Keyed>, output: Seq<Keyed>) -> bool {
    &&& output.to_multiset() == input.to_multiset()
    &&& forall|i: int, j: int| 0 <= i < j < output.len() ==> output[i].0 <= output[j].0
    &&& forall|i: int, j: int|
        0 <= i < j < output.len() && output[i].0 == output[j].0 ==> exists|a: int, b: int|
            0 <= a < b < input.len() && input[a] == output[i] && input[b] == output[j]
}

/// Whether `a` comes before `b`, or is `b`: its key is lower, or the keys are
/// equal and its position is not higher.
pub open spec fn in_order(a: Keyed, b: Keyed) -> bool {
    a.0 < b.0 || (a.0 == b.0 && a.1 <= b.1)
}

/// The order of keys and, among equal keys, of positions.
pub open spec fn key_order() -> spec_fn(Keyed, Keyed) -> bool {
    |a: Keyed, b: Keyed| in_order(a, b)
}

/// The items in ascending order of their keys, and items with equal keys in
/// ascending order of their positions.
pub open spec fn sorted_of(items: Seq<Keyed>) -> Seq<Keyed> {
    items.sort_by(key_order())
}

/// Whether the positions of the items rise along the list.
pub open spec fn positions_rise(items: Seq<Keyed>) -> bool {
    forall|i: int, j: int| 0 <= i < j < items.len() ==> items[i].1 < items[j].1
}

/// Calls `itertools::Itertools::sorted_by_key` with the first component as the
/// key. Trusted: the result holds the same items, in ascending order of their
/// keys, and the sort is stable.
#[verifier::external_body]
pub(crate) fn sorted_by_key(items: Vec<Keyed>) -> (sorted: Vec<Keyed>)
    ensures
        stably_sorted(items@, sorted@),
{
    items.into_iter().sorted_by_key(|item| item.0).collect()
}

/// A sorted list has the length of the list it was sorted from, and holds
/// each of its items.
pub proof fn lemma_sorted_keeps_items(input: Seq<Keyed>, output: Seq<Keyed>)
    requires
        stably_sorted(input, output),
    ensures
        output.len() == input.len(),
        forall|x: Keyed| input.contains(x) <==> output.contains(x),
{
    input.to_multiset_ensures();
    output.to_multiset_ensures();
    assert forall|x: Keyed| input.contains(x) <==> output.contains(x) by {
        assert(input.contains(x) <==> input.to_multiset().count(x) > 0);
        assert(output.contains(x) <==> output.to_multiset().count(x) > 0);
    }
}

/// A stable sort by key of items whose positions rise gives the items in the
/// order of keys and positions: there is one such list, so that a list with
/// the same items in that order is the sorted list.
pub proof fn lemma_stable_sort(input: Seq<Keyed>, output: Seq<Keyed>)
    requires
        stably_sorted(input, output),
        positions_rise(input),
    ensures
        output == sorted_of(input),
{
    let leq = key_order();
    assert(total_ordering(leq)) by {
        assert(reflexive(leq));
        assert(antisymmetric(leq)) by {
            assert forall|a: Keyed, b: Keyed| #[trigger] leq(a, b) && #[trigger] leq(b, a) implies a
                == b by {}
        }
        assert(transitive(leq));
        assert(strongly_connected(leq));
    }
    assert(sorted_by(output, leq)) by {
        assert forall|i: int, j: int| 0 <= i < j < output.len() implies #[trigger] leq(
            output[i],
            output[j],
        ) by {
            if output[i].0 == output[j].0 {
                let (a, b) = choose|a: int, b: int|
                    0 <= a < b < input.len() && input[a] == output[i] && input[b] == output[j];
                assert(input[a].1 < input[b].1);
            }
        }
    }
    input.lemma_sort_by_ensures(leq);
    lemma_sorted_unique(output, input.sort_by(leq), leq);
}

/// The list with the same items in the order of keys and positions is the
/// sorted list.
pub proof fn lemma_sorted_of_is(input: Seq<Keyed>, output: Seq<Keyed>)
    requires
        output.to_multiset() == input.to_multiset(),
        forall|i: int, j: int| 0 <= i < j < output.len() ==> in_order(output[i], output[j]),
    ensures
        output == sorted_of(input),
{
    let leq = key_order();
    assert(total_ordering(leq)) by {
        assert(reflexive(leq));
        assert(antisymmetric(leq)) by {
            assert forall|a: Keyed, b: Keyed| #[trigger] leq(a, b) && #[trigger] leq(b, a) implies a
                == b by {}
        }
        assert(transitive(leq));
        assert(strongly_connected(leq));
    }
    assert(sorted_by(output, leq));
    input.lemma_sort_by_ensures(leq);
    lemma_sorted_unique(output, input.sort_by(leq), leq);
}

} // verus!
