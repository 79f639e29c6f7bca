//! How candidates are put in order.

use crate::candidates::HorizontalPlacementCandidate;
use crate::corridors;
use crate::corridors::Vector;
use crate::deltas;
use vstd::prelude::*;

verus! {

/// The distance of two places is the number of steps along the axes from one to the other: none if
/// and only if they are one place, the same in both directions and wherever the two lie, and one
/// step changes it by one.
pub proof fn law_distance(a: Vector, b: Vector, c: Vector)
    ensures
        corridors::distance(a, b) >= 0,
        corridors::distance(a, b) == 0 <==> a == b,
        corridors::distance(a, b) == corridors::distance(b, a),
        corridors::distance(a, c) <= corridors::distance(a, b) + corridors::distance(b, c),
        corridors::distance(corridors::plus(a, c), corridors::plus(b, c)) == corridors::distance(a, b),
        a.0 >= b.0 ==> corridors::distance((a.0 + 1, a.1), b) == corridors::distance(a, b) + 1,
        a.1 >= b.1 ==> corridors::distance((a.0, a.1 + 1), b) == corridors::distance(a, b) + 1,
        a.0 < b.0 ==> corridors::distance((a.0 + 1, a.1), b) == corridors::distance(a, b) - 1,
        a.1 < b.1 ==> corridors::distance((a.0, a.1 + 1), b) == corridors::distance(a, b) - 1,
{
}

/// No candidate stands before one that lies nearer.
pub open spec fn nearer_first(list: Seq<HorizontalPlacementCandidate>, from: HorizontalPlacementCandidate) -> bool {
    forall|i: int, j: int| #![trigger list[i], list[j]]
        0 <= i < j < list.len() ==> corridors::distance(
            deltas::pair_vector(list[i].right_delta),
            deltas::pair_vector(from.right_delta),
        ) <= corridors::distance(deltas::pair_vector(list[j].right_delta), deltas::pair_vector(from.right_delta))
            && !deltas::farther(list[i], list[j], from)
}

proof fn lemma_put(
    list: Seq<HorizontalPlacementCandidate>,
    candidate: HorizontalPlacementCandidate,
    from: HorizontalPlacementCandidate,
)
    requires
        nearer_first(list, from),
    ensures
        nearer_first(deltas::put(list, candidate, from), from),
        deltas::put(list, candidate, from).to_multiset() == list.to_multiset().insert(candidate),
    decreases list.len(),
{
    broadcast use vstd::seq_lib::group_to_multiset_ensures;

    let after = deltas::put(list, candidate, from);
    if list.len() == 0 || !deltas::farther(list.last(), candidate, from) {
        assert forall|i: int, j: int| #![trigger after[i], after[j]] 0 <= i < j < after.len() implies corridors::distance(
            deltas::pair_vector(after[i].right_delta),
            deltas::pair_vector(from.right_delta),
        ) <= corridors::distance(deltas::pair_vector(after[j].right_delta), deltas::pair_vector(from.right_delta))
            && !deltas::farther(after[i], after[j], from) by {
            if j == list.len() && i < list.len() - 1 {
                assert(!deltas::farther(list[i], list[list.len() - 1], from));
            }
        }
    } else {
        let rest = list.drop_last();
        let last = list.last();
        assert(nearer_first(rest, from)) by {
            assert forall|i: int, j: int| #![trigger rest[i], rest[j]] 0 <= i < j < rest.len() implies corridors::distance(
                deltas::pair_vector(rest[i].right_delta),
                deltas::pair_vector(from.right_delta),
            ) <= corridors::distance(deltas::pair_vector(rest[j].right_delta), deltas::pair_vector(from.right_delta))
                && !deltas::farther(rest[i], rest[j], from) by {
                assert(rest[i] == list[i] && rest[j] == list[j]);
            }
        }
        lemma_put(rest, candidate, from);
        let before = deltas::put(rest, candidate, from);
        assert forall|i: int, j: int| #![trigger after[i], after[j]] 0 <= i < j < after.len() implies corridors::distance(
            deltas::pair_vector(after[i].right_delta),
            deltas::pair_vector(from.right_delta),
        ) <= corridors::distance(deltas::pair_vector(after[j].right_delta), deltas::pair_vector(from.right_delta))
            && !deltas::farther(after[i], after[j], from) by {
            if j == before.len() {
                assert(before.contains(before[i]));
                assert(before.to_multiset().count(before[i]) > 0);
                if before[i] != candidate {
                    assert(rest.to_multiset().count(before[i]) > 0);
                    assert(rest.contains(before[i]));
                    let n = choose|n: int| 0 <= n < rest.len() && rest[n] == before[i];
                    assert(list[n] == before[i] && list[list.len() - 1] == last);
                }
            } else {
                assert(after[i] == before[i] && after[j] == before[j]);
            }
        }
        assert(list =~= rest.push(last));
        assert(after.to_multiset() =~= list.to_multiset().insert(candidate));
    }
}

/// The candidates in order are the same candidates, those that lie nearer to the place where the
/// wires meet before those that lie farther.
pub proof fn law_candidates_in_order(
    list: Seq<HorizontalPlacementCandidate>,
    from: HorizontalPlacementCandidate,
    k: nat,
)
    requires
        k <= list.len(),
    ensures
        nearer_first(deltas::nearest_first(list, from, k), from),
        deltas::nearest_first(list, from, k).to_multiset() == list.take(k as int).to_multiset(),
    decreases k,
{
    broadcast use vstd::seq_lib::group_to_multiset_ensures;

    if k == 0 {
        assert(list.take(0) =~= Seq::empty());
    } else {
        law_candidates_in_order(list, from, (k - 1) as nat);
        lemma_put(deltas::nearest_first(list, from, (k - 1) as nat), list[k - 1], from);
        assert(list.take(k as int) =~= list.take(k - 1).push(list[k - 1]));
    }
}

} // verus!
