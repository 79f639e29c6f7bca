//! Changes of chosen vectors around a contradiction.

use crate::corridors::Vector;
use crate::placement::{terms_of, try_solve_origins_with_choices, Conflict, Corridor, PlacementModel, PlacementProblem};
use crate::search::{copy_choices, has_state};
use crate::corridors;
use crate::domains;
use crate::placement;
use crate::search;
use vstd::prelude::*;

verus! {

/// Vectors for some corridors.
pub type Assignment = Vec<(usize, (i128, i128))>;

/// The corridors allow the vectors.
pub open spec fn assigns(list: Seq<Corridor>, assignment: Seq<(usize, (i128, i128))>) -> bool {
    forall|i: int|
        0 <= i < assignment.len() ==> (#[trigger] assignment[i]).0 < list.len() && corridors::holds(
            list[assignment[i].0 as int].domain@,
            corridors::vector(assignment[i].1),
        )
}

/// The corridors allow the vectors of all assignments.
pub open spec fn all_assign(list: Seq<Corridor>, assignments: Seq<Assignment>) -> bool {
    forall|i: int| 0 <= i < assignments.len() ==> assigns(list, (#[trigger] assignments[i])@)
}

/// The assignment speaks of the corridors of the terms, in their order.
pub open spec fn matches_terms(terms: Seq<(usize, i128)>, assignment: Seq<(usize, (i128, i128))>, k: int) -> bool {
    &&& assignment.len() == k
    &&& forall|i: int| 0 <= i < k ==> (#[trigger] assignment[i]).0 == terms[i].0
}

/// The vectors, each multiplied by the number of its term, added up.
pub open spec fn assigned_sum(terms: Seq<(usize, i128)>, assignment: Seq<(usize, (i128, i128))>, k: nat) -> Vector
    decreases k,
{
    if k == 0 {
        (0int, 0int)
    } else {
        corridors::plus(
            assigned_sum(terms, assignment, (k - 1) as nat),
            domains::times(terms[k - 1].1, corridors::vector(assignment[k - 1].1)),
        )
    }
}

proof fn lemma_assigned_prefix(
    terms: Seq<(usize, i128)>,
    a: Seq<(usize, (i128, i128))>,
    b: Seq<(usize, (i128, i128))>,
    k: nat,
)
    requires
        k <= a.len(),
        k <= b.len(),
        forall|i: int| 0 <= i < k ==> a[i] == b[i],
    ensures
        assigned_sum(terms, a, k) == assigned_sum(terms, b, k),
    decreases k,
{
    if k > 0 {
        lemma_assigned_prefix(terms, a, b, (k - 1) as nat);
        assert(a[k - 1] == b[k - 1]);
    }
}

/// The corridors of the terms are given vectors with which the terms add up to zero.
pub open spec fn closes_cycle(
    list: Seq<Corridor>,
    terms: Seq<(usize, i128)>,
    assignment: Seq<(usize, (i128, i128))>,
) -> bool {
    &&& assigns(list, assignment)
    &&& matches_terms(terms, assignment, terms.len() as int)
    &&& assigned_sum(terms, assignment, terms.len()) == (0int, 0int)
}

fn copy_assignment(assignment: &Assignment) -> (copy: Assignment)
    ensures
        copy@ == assignment@,
{
    let mut copy: Assignment = Vec::new();
    let mut i: usize = 0;
    while i < assignment.len()
        invariant
            i <= assignment@.len(),
            copy@ == assignment@.take(i as int),
        decreases assignment.len() - i,
    {
        copy.push(assignment[i]);
        assert(assignment@.take(i + 1) =~= assignment@.take(i as int).push(assignment@[i as int]));
        i += 1;
    }
    assert(assignment@.take(i as int) =~= assignment@);
    copy
}

/// The number is no larger than a sum of vectors along that many links, each up to three times.
spec fn sum_fits(p: &PlacementProblem, sum: int, width: int) -> bool {
    -(3 * (width * p.limit)) <= sum <= 3 * (width * p.limit)
}

/// A sum of vectors along some links is one along more.
proof fn lemma_sum_fits(p: &PlacementProblem, sum: int, width: int, more: int)
    requires
        p.wf(),
        sum_fits(p, sum, width),
        width <= more,
    ensures
        sum_fits(p, sum, more),
{
    assert(width * p.limit <= more * p.limit) by (nonlinear_arith)
        requires
            width <= more,
            0 <= p.limit,
    ;
}

/// The contents of the lists.
pub open spec fn contents(assignments: Seq<Assignment>) -> Seq<Seq<(usize, (i128, i128))>> {
    Seq::new(assignments.len(), |i: int| assignments[i]@)
}

/// All assignments of vectors to the corridors of the terms that begin with the given one, in
/// the order in which the corridors list their vectors.
pub open spec fn extensions(
    list: Seq<Corridor>,
    terms: Seq<(usize, i128)>,
    partial: Seq<(usize, (i128, i128))>,
) -> Seq<Seq<(usize, (i128, i128))>>
    decreases terms.len() - partial.len(), list[terms[partial.len() as int].0 as int].domain@.len() + 1,
{
    if partial.len() >= terms.len() {
        seq![partial]
    } else {
        branches(list, terms, partial, list[terms[partial.len() as int].0 as int].domain@.len())
    }
}

/// Those of them in which the next corridor is given one of its first `n` vectors.
pub open spec fn branches(
    list: Seq<Corridor>,
    terms: Seq<(usize, i128)>,
    partial: Seq<(usize, (i128, i128))>,
    n: nat,
) -> Seq<Seq<(usize, (i128, i128))>>
    decreases terms.len() - partial.len(), n,
{
    if n == 0 || partial.len() >= terms.len() {
        Seq::empty()
    } else {
        let c = terms[partial.len() as int].0;
        branches(list, terms, partial, (n - 1) as nat) + extensions(
            list,
            terms,
            partial.push((c, list[c as int].domain@[n - 1])),
        )
    }
}

/// The terms add up to zero.
pub open spec fn closing(terms: Seq<(usize, i128)>) -> spec_fn(Seq<(usize, (i128, i128))>) -> bool {
    |assignment: Seq<(usize, (i128, i128))>| assigned_sum(terms, assignment, terms.len()) == (0int, 0int)
}

/// The coordinates of the terms along an axis add up to zero with a number.
pub open spec fn balancing(terms: Seq<(usize, i128)>, upright: bool, offset: int) -> spec_fn(
    Seq<(usize, (i128, i128))>,
) -> bool {
    |assignment: Seq<(usize, (i128, i128))>|
        offset + corridors::along(assigned_sum(terms, assignment, terms.len()), upright) == 0
}

proof fn lemma_one_filtered(
    assignment: Seq<(usize, (i128, i128))>,
    pred: spec_fn(Seq<(usize, (i128, i128))>) -> bool,
)
    ensures
        seq![assignment].filter(pred) == (if pred(assignment) {
            seq![assignment]
        } else {
            Seq::empty()
        }),
{
    reveal(Seq::filter);
    let one = seq![assignment];
    assert(one.drop_last() =~= Seq::<Seq<(usize, (i128, i128))>>::empty());
    assert(one.drop_last().filter(pred) =~= Seq::<Seq<(usize, (i128, i128))>>::empty());
    assert(one.last() == assignment);
}

proof fn lemma_none_filtered(pred: spec_fn(Seq<(usize, (i128, i128))>) -> bool)
    ensures
        Seq::<Seq<(usize, (i128, i128))>>::empty().filter(pred) == Seq::<Seq<(usize, (i128, i128))>>::empty(),
{
    reveal(Seq::filter);
}

/// The number times the coordinate, added to a sum.
fn add_multiple(
    p: &PlacementProblem,
    sum: i128,
    number: i128,
    value: i128,
    width: Ghost<int>,
    size: Ghost<int>,
) -> (total: i128)
    requires
        p.wf(),
        0 <= width@,
        0 <= size@,
        width@ + size@ <= 4 * p.nodes,
        sum_fits(p, sum as int, width@),
        -3 <= number <= 3,
        -(size@ * p.limit) <= value <= size@ * p.limit,
    ensures
        total == sum + number * value,
        sum_fits(p, total as int, width@ + size@),
{
    proof {
        let far = size@ * p.limit;
        placement::lemma_limits(p);
        assert(-(3 * far) <= number * value <= 3 * far) by (nonlinear_arith)
            requires
                -3 <= number <= 3,
                -far <= value <= far,
        ;
        assert((width@ + size@) * p.limit == width@ * p.limit + size@ * p.limit) by (nonlinear_arith);
        assert(4 * ((width@ + size@) * p.limit) <= 16 * p.nodes * p.limit) by (nonlinear_arith)
            requires
                width@ + size@ <= 4 * p.nodes,
                0 <= p.limit,
        ;
        assert(0 <= size@ * p.limit) by (nonlinear_arith)
            requires
                0 <= size@,
                0 <= p.limit,
        ;
        assert(0 <= width@ * p.limit) by (nonlinear_arith)
            requires
                0 <= width@,
                0 <= p.limit,
        ;
    }
    sum + number * value
}

/// An assignment and one entry more.
proof fn lemma_entry_added(
    list: Seq<Corridor>,
    terms: Seq<(usize, i128)>,
    start: Seq<(usize, (i128, i128))>,
    d: (i128, i128),
)
    requires
        placement::terms_differ(list, terms),
        start.len() < terms.len(),
        assigns(list, start),
        matches_terms(terms, start, start.len() as int),
        corridors::holds(list[terms[start.len() as int].0 as int].domain@, corridors::vector(d)),
    ensures
        ({
            let c = terms[start.len() as int].0;
            let more = start.push((c, d));
            &&& assigns(list, more)
            &&& matches_terms(terms, more, more.len() as int)
            &&& assigned_sum(terms, more, more.len()) == corridors::plus(
                assigned_sum(terms, start, start.len()),
                domains::times(terms[start.len() as int].1, corridors::vector(d)),
            )
        }),
{
    let c = terms[start.len() as int].0;
    let more = start.push((c, d));
    lemma_assigned_prefix(terms, more, start, start.len());
    assert(terms[start.len() as int].0 < list.len());
    assert forall|j: int| 0 <= j < more.len() implies (#[trigger] more[j]).0 < list.len() && corridors::holds(
        list[more[j].0 as int].domain@,
        corridors::vector(more[j].1),
    ) && more[j].0 == terms[j].0 by {
        if j < start.len() {
            assert(more[j] == start[j]);
        }
    }
}

/// Adds all assignments that begin with the given one, and with which the terms add up to
/// zero.
fn enumerate_cycle_assignments(
    p: &PlacementProblem,
    list: &Vec<Corridor>,
    terms: &Vec<(usize, i128)>,
    partial: &mut Assignment,
    sum: (i128, i128),
    out: &mut Vec<Assignment>,
)
    requires
        p.wf(),
        placement::corridors_wf(p, list@),
        placement::terms_differ(list@, terms@),
        placement::small_terms(terms@),
        old(partial)@.len() <= terms@.len(),
        assigns(list@, old(partial)@),
        matches_terms(terms@, old(partial)@, old(partial)@.len() as int),
        (sum.0 as int, sum.1 as int) == assigned_sum(terms@, old(partial)@, old(partial)@.len()),
        sum_fits(
            p,
            sum.0 as int,
            p.links@.len() + domains::term_width(list@, terms@, old(partial)@.len()),
        ),
        sum_fits(
            p,
            sum.1 as int,
            p.links@.len() + domains::term_width(list@, terms@, old(partial)@.len()),
        ),
        forall|i: int| 0 <= i < old(out)@.len() ==> closes_cycle(list@, terms@, (#[trigger] old(out)@[i])@),
    ensures
        final(partial)@ == old(partial)@,
        contents(final(out)@) == contents(old(out)@) + extensions(list@, terms@, old(partial)@).filter(closing(terms@)),
        forall|i: int| 0 <= i < final(out)@.len() ==> closes_cycle(list@, terms@, (#[trigger] final(out)@[i])@),
    decreases terms@.len() - old(partial)@.len(),
{
    let ghost pred = closing(terms@);
    let idx: usize = partial.len();
    if idx == terms.len() {
        proof {
            lemma_one_filtered(partial@, pred);
        }
        if sum.0 == 0 && sum.1 == 0 {
            out.push(copy_assignment(partial));
        }
        assert(contents(out@) =~= contents(old(out)@) + extensions(list@, terms@, partial@).filter(pred));
        return;
    }
    let ghost start = partial@;
    let (c, number): (usize, i128) = terms[idx];
    assert(terms@[idx as int].0 < list@.len());
    let mut i: usize = 0;
    proof {
        lemma_none_filtered(pred);
        assert(contents(out@) =~= contents(old(out)@) + branches(list@, terms@, start, 0).filter(pred));
    }
    while i < list[c].domain.len()
        invariant
            p.wf(),
            placement::corridors_wf(p, list@),
            placement::terms_differ(list@, terms@),
            placement::small_terms(terms@),
            idx < terms@.len(),
            idx == start.len(),
            (c, number) == terms@[idx as int],
            c < list@.len(),
            start == old(partial)@,
            partial@ == start,
            assigns(list@, start),
            matches_terms(terms@, start, idx as int),
            (sum.0 as int, sum.1 as int) == assigned_sum(terms@, start, idx as nat),
            sum_fits(p, sum.0 as int, p.links@.len() + domains::term_width(list@, terms@, idx as nat)),
            sum_fits(p, sum.1 as int, p.links@.len() + domains::term_width(list@, terms@, idx as nat)),
            pred == closing(terms@),
            contents(out@) == contents(old(out)@) + branches(list@, terms@, start, i as nat).filter(pred),
            forall|i: int| 0 <= i < out@.len() ==> closes_cycle(list@, terms@, (#[trigger] out@[i])@),
            i <= list@[c as int].domain@.len(),
        decreases list@[c as int].domain@.len() - i,
    {
        let candidate: (i128, i128) = list[c].domain[i];
        let ghost size = list@[c as int].last - list@[c as int].first;
        let ghost width = p.links@.len() + domains::term_width(list@, terms@, idx as nat);
        proof {
            assert(corridors::vector(list@[c as int].domain@[i as int]) == corridors::vector(candidate));
            lemma_entry_added(list@, terms@, start, candidate);
            assert(placement::corridor_wf(p, list@[c as int]));
            assert(-(size * p.limit) <= list@[c as int].domain@[i as int].0);
            domains::lemma_term_width(p, list@, terms@, idx as nat);
            domains::lemma_term_width(p, list@, terms@, (idx + 1) as nat);
            assert(-3 <= terms@[idx as int].1 <= 3);
        }
        let x: i128 = add_multiple(p, sum.0, number, candidate.0, Ghost(width), Ghost(size));
        let y: i128 = add_multiple(p, sum.1, number, candidate.1, Ghost(width), Ghost(size));
        partial.push((c, candidate));
        let ghost more = partial@;
        enumerate_cycle_assignments(p, list, terms, partial, (x, y), out);
        partial.pop();
        proof {
            assert(partial@ =~= start);
            let earlier = branches(list@, terms@, start, i as nat);
            let added = extensions(list@, terms@, more);
            assert(branches(list@, terms@, start, (i + 1) as nat) == earlier + added);
            Seq::filter_distributes_over_add(earlier, added, pred);
            assert(contents(out@) =~= contents(old(out)@) + (earlier.filter(pred) + added.filter(pred)));
        }
        i += 1;
    }
}

/// Adds all assignments that begin with the given one, and with which the coordinates of the
/// terms along an axis add up to zero with a sum, to which those of the given one already
/// belong.
fn enumerate_axis_cycle_assignments(
    p: &PlacementProblem,
    list: &Vec<Corridor>,
    terms: &Vec<(usize, i128)>,
    upright: bool,
    partial: &mut Assignment,
    sum: i128,
    out: &mut Vec<Assignment>,
)
    requires
        p.wf(),
        placement::corridors_wf(p, list@),
        placement::terms_differ(list@, terms@),
        placement::small_terms(terms@),
        old(partial)@.len() <= terms@.len(),
        assigns(list@, old(partial)@),
        matches_terms(terms@, old(partial)@, old(partial)@.len() as int),
        sum_fits(
            p,
            sum as int,
            p.links@.len() + domains::term_width(list@, terms@, old(partial)@.len()),
        ),
        all_assign(list@, old(out)@),
    ensures
        final(partial)@ == old(partial)@,
        contents(final(out)@) == contents(old(out)@) + extensions(list@, terms@, old(partial)@).filter(
            balancing(
                terms@,
                upright,
                sum - corridors::along(assigned_sum(terms@, old(partial)@, old(partial)@.len()), upright),
            ),
        ),
        all_assign(list@, final(out)@),
    decreases terms@.len() - old(partial)@.len(),
{
    let ghost offset = sum - corridors::along(assigned_sum(terms@, partial@, partial@.len()), upright);
    let ghost pred = balancing(terms@, upright, offset);
    let idx: usize = partial.len();
    if idx == terms.len() {
        proof {
            lemma_one_filtered(partial@, pred);
        }
        if sum == 0 {
            out.push(copy_assignment(partial));
        }
        assert(contents(out@) =~= contents(old(out)@) + extensions(list@, terms@, partial@).filter(pred));
        return;
    }
    let ghost start = partial@;
    let (c, number): (usize, i128) = terms[idx];
    assert(terms@[idx as int].0 < list@.len());
    let mut i: usize = 0;
    proof {
        lemma_none_filtered(pred);
        assert(contents(out@) =~= contents(old(out)@) + branches(list@, terms@, start, 0).filter(pred));
    }
    while i < list[c].domain.len()
        invariant
            p.wf(),
            placement::corridors_wf(p, list@),
            placement::terms_differ(list@, terms@),
            placement::small_terms(terms@),
            idx < terms@.len(),
            idx == start.len(),
            (c, number) == terms@[idx as int],
            c < list@.len(),
            start == old(partial)@,
            partial@ == start,
            assigns(list@, start),
            matches_terms(terms@, start, idx as int),
            sum_fits(p, sum as int, p.links@.len() + domains::term_width(list@, terms@, idx as nat)),
            offset == sum - corridors::along(assigned_sum(terms@, start, idx as nat), upright),
            pred == balancing(terms@, upright, offset),
            contents(out@) == contents(old(out)@) + branches(list@, terms@, start, i as nat).filter(pred),
            all_assign(list@, out@),
            i <= list@[c as int].domain@.len(),
        decreases list@[c as int].domain@.len() - i,
    {
        let candidate: (i128, i128) = list[c].domain[i];
        let value: i128 = if upright {
            candidate.1
        } else {
            candidate.0
        };
        let ghost size = list@[c as int].last - list@[c as int].first;
        let ghost width = p.links@.len() + domains::term_width(list@, terms@, idx as nat);
        proof {
            assert(corridors::vector(list@[c as int].domain@[i as int]) == corridors::vector(candidate));
            lemma_entry_added(list@, terms@, start, candidate);
            assert(placement::corridor_wf(p, list@[c as int]));
            assert(-(size * p.limit) <= list@[c as int].domain@[i as int].0);
            domains::lemma_term_width(p, list@, terms@, idx as nat);
            domains::lemma_term_width(p, list@, terms@, (idx + 1) as nat);
            assert(-3 <= terms@[idx as int].1 <= 3);
        }
        let total: i128 = add_multiple(p, sum, number, value, Ghost(width), Ghost(size));
        partial.push((c, candidate));
        let ghost more = partial@;
        assert(offset == total - corridors::along(assigned_sum(terms@, more, more.len()), upright));
        enumerate_axis_cycle_assignments(p, list, terms, upright, partial, total, out);
        partial.pop();
        proof {
            assert(partial@ =~= start);
            let earlier = branches(list@, terms@, start, i as nat);
            let added = extensions(list@, terms@, more);
            assert(branches(list@, terms@, start, (i + 1) as nat) == earlier + added);
            Seq::filter_distributes_over_add(earlier, added, pred);
            assert(contents(out@) =~= contents(old(out)@) + (earlier.filter(pred) + added.filter(pred)));
        }
        i += 1;
    }
}

/// How many of the first `k` vectors of an assignment differ from those that were chosen.
pub open spec fn changes_of(choices: Seq<Option<(i128, i128)>>, assignment: Seq<(usize, (i128, i128))>, k: nat) -> nat
    decreases k,
{
    if k == 0 {
        0
    } else {
        changes_of(choices, assignment, (k - 1) as nat) + (if choices[assignment[k - 1].0 as int] == Some(
            assignment[k - 1].1,
        ) {
            0nat
        } else {
            1
        })
    }
}

/// How many vectors of an assignment differ from those that were chosen.
fn count_changes(choices: &Vec<Option<(i128, i128)>>, assignment: &Assignment) -> (changes: usize)
    requires
        forall|i: int| 0 <= i < assignment@.len() ==> (#[trigger] assignment@[i]).0 < choices@.len(),
    ensures
        changes == changes_of(choices@, assignment@, assignment@.len()),
{
    let mut changes: usize = 0;
    let mut i: usize = 0;
    while i < assignment.len()
        invariant
            forall|j: int| 0 <= j < assignment@.len() ==> (#[trigger] assignment@[j]).0 < choices@.len(),
            i <= assignment@.len(),
            changes <= i,
            changes == changes_of(choices@, assignment@, i as nat),
        decreases assignment.len() - i,
    {
        let (c, d): (usize, (i128, i128)) = assignment[i];
        assert(assignment@[i as int].0 < choices@.len());
        let same: bool = match choices[c] {
            Some(current) => current.0 == d.0 && current.1 == d.1,
            None => false,
        };
        assert(same == (choices@[c as int] == Some(d)));
        if !same {
            changes += 1;
        }
        i += 1;
    }
    changes
}

/// The places of corridors in an order.
pub open spec fn rank_of(order: Seq<usize>) -> Seq<usize> {
    Seq::new(order.len(), |c: int| choose|i: usize| i < order.len() && #[trigger] order[i as int] == c)
}

/// The corridors' places in the order of the model.
fn ranks(order: &Vec<usize>) -> (rank: Vec<usize>)
    requires
        placement::is_order(order@, order@.len()),
    ensures
        rank@ == rank_of(order@),
{
    let mut rank: Vec<usize> = Vec::new();
    let mut i: usize = 0;
    while i < order.len()
        invariant
            i <= order@.len(),
            rank@.len() == i,
        decreases order.len() - i,
    {
        rank.push(0);
        i += 1;
    }
    let mut j: usize = 0;
    while j < order.len()
        invariant
            placement::is_order(order@, order@.len()),
            j <= order@.len(),
            rank@.len() == order@.len(),
            forall|i: int| 0 <= i < j ==> rank@[#[trigger] order@[i] as int] == i,
        decreases order.len() - j,
    {
        assert(order@[j as int] < order@.len());
        let ghost before = rank@;
        rank.set(order[j], j);
        proof {
            assert forall|i: int| 0 <= i < j + 1 implies rank@[#[trigger] order@[i] as int] == i by {
                if i < j {
                    assert(order@[i] != order@[j as int]);
                    assert(order@[i] < order@.len());
                    assert(before[order@[i] as int] == i);
                }
            }
        }
        j += 1;
    }
    proof {
        assert forall|c: int| 0 <= c < order@.len() implies rank@[c] == rank_of(order@)[c] by {
            assert(placement::ordered(order@, c));
            let i = choose|i: int| 0 <= i < order@.len() && #[trigger] order@[i] == c;
            assert(order@[(i as usize) as int] == c);
            let other = rank_of(order@)[c];
            assert(other < order@.len() && order@[other as int] == c);
            assert(rank@[order@[i] as int] == i);
            if i < other {
                assert(order@[i] != order@[other as int]);
            } else if other < i {
                assert(order@[other as int] != order@[i]);
            }
        }
        assert(rank@ =~= rank_of(order@));
    }
    rank
}

/// The order of entries: by the rank of their corridor, then by their vector.
pub open spec fn entry_before(rank: Seq<usize>, a: (usize, (i128, i128)), b: (usize, (i128, i128))) -> bool {
    let x = rank[a.0 as int];
    let y = rank[b.0 as int];
    x < y || (x == y && (a.1.0 < b.1.0 || (a.1.0 == b.1.0 && a.1.1 < b.1.1)))
}

/// The order of assignments: that of their first entries that differ; a shorter one stands
/// before one that goes on.
pub open spec fn assignment_before(
    rank: Seq<usize>,
    a: Seq<(usize, (i128, i128))>,
    b: Seq<(usize, (i128, i128))>,
    k: int,
) -> bool
    decreases a.len() - k,
{
    if k >= a.len() {
        k < b.len()
    } else if k >= b.len() {
        false
    } else if entry_before(rank, a[k], b[k]) {
        true
    } else if entry_before(rank, b[k], a[k]) {
        false
    } else {
        assignment_before(rank, a, b, k + 1)
    }
}

fn is_entry_before(rank: &Vec<usize>, a: (usize, (i128, i128)), b: (usize, (i128, i128))) -> (result: bool)
    requires
        a.0 < rank@.len(),
        b.0 < rank@.len(),
    ensures
        result == entry_before(rank@, a, b),
{
    let x: usize = rank[a.0];
    let y: usize = rank[b.0];
    x < y || (x == y && (a.1.0 < b.1.0 || (a.1.0 == b.1.0 && a.1.1 < b.1.1)))
}

fn is_assignment_before(rank: &Vec<usize>, a: &Assignment, b: &Assignment) -> (result: bool)
    requires
        forall|i: int| 0 <= i < a@.len() ==> (#[trigger] a@[i]).0 < rank@.len(),
        forall|i: int| 0 <= i < b@.len() ==> (#[trigger] b@[i]).0 < rank@.len(),
    ensures
        result == assignment_before(rank@, a@, b@, 0),
{
    let mut k: usize = 0;
    while k < a.len() && k < b.len()
        invariant
            forall|i: int| 0 <= i < a@.len() ==> (#[trigger] a@[i]).0 < rank@.len(),
            forall|i: int| 0 <= i < b@.len() ==> (#[trigger] b@[i]).0 < rank@.len(),
            k <= a@.len(),
            k <= b@.len(),
            assignment_before(rank@, a@, b@, 0) == assignment_before(rank@, a@, b@, k as int),
        decreases a.len() - k,
    {
        assert(a@[k as int].0 < rank@.len() && b@[k as int].0 < rank@.len());
        if is_entry_before(rank, a[k], b[k]) {
            return true;
        }
        if is_entry_before(rank, b[k], a[k]) {
            return false;
        }
        k += 1;
    }
    k < b.len()
}

/// The order of numbered assignments: by their numbers, then by the order of assignments.
pub open spec fn comes_before(
    rank: Seq<usize>,
    m: usize,
    a: Seq<(usize, (i128, i128))>,
    n: usize,
    b: Seq<(usize, (i128, i128))>,
) -> bool {
    m < n || (m == n && assignment_before(rank, a, b, 0))
}

/// Numbered assignments, in their order.
pub struct Ranking {
    pub numbers: Seq<usize>,
    pub assignments: Seq<Seq<(usize, (i128, i128))>>,
}

/// Every numbered assignment comes before the next.
pub open spec fn in_order(rank: Seq<usize>, ranking: Ranking) -> bool {
    forall|i: int, j: int| #![trigger ranking.assignments[i], ranking.assignments[j]]
        0 <= i && j == i + 1 && j < ranking.assignments.len() ==> comes_before(
            rank,
            ranking.numbers[i],
            ranking.assignments[i],
            ranking.numbers[j],
            ranking.assignments[j],
        )
}

/// The place among the first `n` before which a numbered assignment does not come.
pub open spec fn slot(
    rank: Seq<usize>,
    ranking: Ranking,
    number: usize,
    assignment: Seq<(usize, (i128, i128))>,
    n: nat,
) -> nat
    decreases n,
{
    if n == 0 {
        0
    } else if comes_before(rank, number, assignment, ranking.numbers[n - 1], ranking.assignments[n - 1]) {
        slot(rank, ranking, number, assignment, (n - 1) as nat)
    } else {
        n
    }
}

/// One more numbered assignment, in its place. One that is already there is not added again.
pub open spec fn ranked(
    rank: Seq<usize>,
    ranking: Ranking,
    number: usize,
    assignment: Seq<(usize, (i128, i128))>,
) -> Ranking {
    let at = slot(rank, ranking, number, assignment, ranking.assignments.len());
    if at > 0 && !comes_before(rank, ranking.numbers[at - 1], ranking.assignments[at - 1], number, assignment) {
        ranking
    } else {
        Ranking {
            numbers: ranking.numbers.insert(at as int, number),
            assignments: ranking.assignments.insert(at as int, assignment),
        }
    }
}

pub open spec fn ranking_of(numbers: Seq<usize>, assignments: Seq<Assignment>) -> Ranking {
    Ranking { numbers, assignments: contents(assignments) }
}

/// Adds an assignment to a list in order: by a number, then by the order of assignments. One
/// that is already there is not added again.
fn insert_assignment(
    list: Ghost<Seq<Corridor>>,
    rank: &Vec<usize>,
    numbers: &mut Vec<usize>,
    assignments: &mut Vec<Assignment>,
    number: usize,
    assignment: Assignment,
)
    requires
        rank@.len() == list@.len(),
        old(numbers)@.len() == old(assignments)@.len(),
        all_assign(list@, old(assignments)@),
        assigns(list@, assignment@),
    ensures
        final(numbers)@.len() == final(assignments)@.len(),
        all_assign(list@, final(assignments)@),
        ranking_of(final(numbers)@, final(assignments)@) == ranked(
            rank@,
            ranking_of(old(numbers)@, old(assignments)@),
            number,
            assignment@,
        ),
        in_order(rank@, ranking_of(old(numbers)@, old(assignments)@)) ==> in_order(
            rank@,
            ranking_of(final(numbers)@, final(assignments)@),
        ),
{
    let ghost start = ranking_of(numbers@, assignments@);
    let mut at: usize = assignments.len();
    while at > 0
        invariant_except_break
            rank@.len() == list@.len(),
            numbers@ == old(numbers)@,
            assignments@ == old(assignments)@,
            start == ranking_of(numbers@, assignments@),
            numbers@.len() == assignments@.len(),
            all_assign(list@, assignments@),
            assigns(list@, assignment@),
            at <= assignments@.len(),
            slot(rank@, start, number, assignment@, assignments@.len()) == slot(
                rank@,
                start,
                number,
                assignment@,
                at as nat,
            ),
            at < assignments@.len() ==> comes_before(
                rank@,
                number,
                assignment@,
                start.numbers[at as int],
                start.assignments[at as int],
            ),
        ensures
            numbers@ == old(numbers)@,
            assignments@ == old(assignments)@,
            numbers@.len() == assignments@.len(),
            all_assign(list@, assignments@),
            at <= assignments@.len(),
            at == slot(rank@, start, number, assignment@, assignments@.len()),
            at > 0 ==> comes_before(
                rank@,
                start.numbers[at - 1],
                start.assignments[at - 1],
                number,
                assignment@,
            ),
            at < assignments@.len() ==> comes_before(
                rank@,
                number,
                assignment@,
                start.numbers[at as int],
                start.assignments[at as int],
            ),
        decreases at,
    {
        assert(assigns(list@, assignments@[at - 1]@));
        assert(start.assignments[at - 1] == assignments@[at - 1]@);
        let earlier: bool = number < numbers[at - 1] || (number == numbers[at - 1] && is_assignment_before(
            rank,
            &assignment,
            &assignments[at - 1],
        ));
        if !earlier {
            if number == numbers[at - 1] && !is_assignment_before(rank, &assignments[at - 1], &assignment) {
                return;
            }
            break;
        }
        at -= 1;
    }
    let ghost before = assignments@;
    numbers.insert(at, number);
    assignments.insert(at, assignment);
    proof {
        let after = ranking_of(numbers@, assignments@);
        assert(after.assignments =~= start.assignments.insert(at as int, assignment@));
        assert forall|i: int| 0 <= i < assignments@.len() implies assigns(list@, (#[trigger] assignments@[i])@) by {
            if i < at {
                assert(assignments@[i] == before[i]);
            } else if i > at {
                assert(assignments@[i] == before[i - 1]);
            }
        }
        if in_order(rank@, start) {
            assert forall|i: int, j: int| #![trigger after.assignments[i], after.assignments[j]]
                0 <= i && j == i + 1 && j < after.assignments.len() implies comes_before(
                rank@,
                after.numbers[i],
                after.assignments[i],
                after.numbers[j],
                after.assignments[j],
            ) by {
                if j < at {
                    assert(after.assignments[i] == start.assignments[i] && after.assignments[j]
                        == start.assignments[j]);
                } else if j == at {
                    assert(after.assignments[i] == start.assignments[i]);
                } else if i == at {
                    assert(after.assignments[j] == start.assignments[j - 1]);
                } else {
                    assert(after.assignments[i] == start.assignments[i - 1] && after.assignments[j]
                        == start.assignments[j - 1]);
                }
            }
        }
    }
}

/// The coordinates of the vectors differ along an axis.
pub open spec fn is_varied(domain: Seq<(i128, i128)>, upright: bool) -> bool {
    !corridors::keeps(domain, corridors::along(corridors::vector(domain[0]), upright), !upright)
}

/// Whether the coordinates of a corridor's vectors differ along an axis.
fn varies(domain: &Vec<(i128, i128)>, upright: bool) -> (result: bool)
    requires
        domain@.len() > 0,
    ensures
        result == is_varied(domain@, upright),
{
    let first: i128 = if upright {
        domain[0].1
    } else {
        domain[0].0
    };
    let mut i: usize = 0;
    while i < domain.len()
        invariant
            domain@.len() > 0,
            first == corridors::along(corridors::vector(domain@[0]), upright),
            i <= domain@.len(),
            forall|j: int|
                0 <= j < i ==> corridors::beside(corridors::vector(#[trigger] domain@[j]), !upright) == first,
        decreases domain.len() - i,
    {
        let value: i128 = if upright {
            domain[i].1
        } else {
            domain[i].0
        };
        assert(corridors::beside(corridors::vector(domain@[i as int]), !upright) == value);
        if value != first {
            return true;
        }
        i += 1;
    }
    false
}

/// Those of the first `k` terms whose vectors differ along an axis.
pub open spec fn varied_terms(
    list: Seq<Corridor>,
    terms: Seq<(usize, i128)>,
    upright: bool,
    k: nat,
) -> Seq<(usize, i128)>
    decreases k,
{
    if k == 0 {
        Seq::empty()
    } else {
        let earlier = varied_terms(list, terms, upright, (k - 1) as nat);
        if is_varied(list[terms[k - 1].0 as int].domain@, upright) {
            earlier.push(terms[k - 1])
        } else {
            earlier
        }
    }
}

/// The chosen coordinate of a corridor along an axis.
pub open spec fn chosen_along(choice: Option<(i128, i128)>, upright: bool) -> int {
    match choice {
        Some(d) => corridors::along(corridors::vector(d), upright),
        None => 0,
    }
}

/// What the others of the first `k` terms add up to along an axis, with the chosen vectors.
pub open spec fn fixed_sum(
    list: Seq<Corridor>,
    choices: Seq<Option<(i128, i128)>>,
    terms: Seq<(usize, i128)>,
    upright: bool,
    k: nat,
) -> int
    decreases k,
{
    if k == 0 {
        0
    } else {
        let c = terms[k - 1].0 as int;
        fixed_sum(list, choices, terms, upright, (k - 1) as nat) + (if is_varied(list[c].domain@, upright) {
            0
        } else {
            terms[k - 1].1 * chosen_along(choices[c], upright)
        })
    }
}

/// The vectors of the corridor of the term differ along both axes.
pub open spec fn varies_twice(list: Seq<Corridor>, terms: Seq<(usize, i128)>, i: int) -> bool {
    is_varied(list[terms[i].0 as int].domain@, false) && is_varied(list[terms[i].0 as int].domain@, true)
}

/// The assignments along an axis with which the terms add up to zero. There is no answer where
/// the vectors of a corridor differ along both axes.
pub open spec fn axis_repairs(
    list: Seq<Corridor>,
    choices: Seq<Option<(i128, i128)>>,
    terms: Seq<(usize, i128)>,
    upright: bool,
) -> Option<Seq<Seq<(usize, (i128, i128))>>> {
    let n = terms.len();
    if exists|i: int| 0 <= i < n && #[trigger] varies_twice(list, terms, i) {
        None
    } else {
        Some(
            extensions(list, varied_terms(list, terms, upright, n), Seq::empty()).filter(
                balancing(
                    varied_terms(list, terms, upright, n),
                    upright,
                    fixed_sum(list, choices, terms, upright, n),
                ),
            ),
        )
    }
}

/// The assignments along an axis with which the terms add up to zero, where the vectors of
/// every corridor differ along one axis at most.
fn axis_conflict_repair_states(
    p: &PlacementProblem,
    list: &Vec<Corridor>,
    choices: &Vec<Option<(i128, i128)>>,
    terms: &Vec<(usize, i128)>,
    upright: bool,
) -> (assignments: Option<Vec<Assignment>>)
    requires
        p.wf(),
        placement::corridors_wf(p, list@),
        placement::choices_wf(list@, choices@),
        placement::terms_differ(list@, terms@),
        placement::small_terms(terms@),
    ensures
        match assignments {
            Some(assignments) => axis_repairs(list@, choices@, terms@, upright) == Some(contents(assignments@)),
            None => axis_repairs(list@, choices@, terms@, upright) is None,
        },
        assignments matches Some(assignments) ==> all_assign(list@, assignments@),
{
    let mut variable: Vec<(usize, i128)> = Vec::new();
    let mut constant: i128 = 0;
    let mut i: usize = 0;
    while i < terms.len()
        invariant
            p.wf(),
            placement::corridors_wf(p, list@),
            placement::choices_wf(list@, choices@),
            placement::terms_differ(list@, terms@),
            placement::small_terms(terms@),
            i <= terms@.len(),
            variable@.len() <= i,
            placement::terms_differ(list@, variable@),
            placement::small_terms(variable@),
            sum_fits(p, constant as int, domains::term_width(list@, terms@, i as nat)),
            variable@ == varied_terms(list@, terms@, upright, i as nat),
            constant == fixed_sum(list@, choices@, terms@, upright, i as nat),
            forall|j: int| 0 <= j < i ==> !#[trigger] varies_twice(list@, terms@, j),
            forall|j: int| 0 <= j < variable@.len() ==> among(terms@, (#[trigger] variable@[j]).0, i as int),
        decreases terms.len() - i,
    {
        let (c, number): (usize, i128) = terms[i];
        assert(terms@[i as int].0 < list@.len());
        assert(placement::corridor_wf(p, list@[c as int]));
        let wide: bool = varies(&list[c].domain, false);
        let high: bool = varies(&list[c].domain, true);
        assert((wide && high) == varies_twice(list@, terms@, i as int));
        if wide && high {
            return None;
        }
        let ghost before = variable@;
        let ghost size = list@[c as int].last - list@[c as int].first;
        let ghost width = domains::term_width(list@, terms@, i as nat);
        proof {
            domains::lemma_term_width(p, list@, terms@, i as nat);
            domains::lemma_term_width(p, list@, terms@, (i + 1) as nat);
            assert(-3 <= terms@[i as int].1 <= 3);
            assert(0 <= size * p.limit) by (nonlinear_arith)
                requires
                    0 <= size,
                    0 <= p.limit,
            ;
            lemma_sum_fits(p, constant as int, width, width + size);
        }
        if (upright && high) || (!upright && wide) {
            variable.push((c, number));
            proof {
                assert forall|j: int, k: int| #![trigger variable@[j], variable@[k]]
                    0 <= j < k < variable@.len() implies variable@[j].0 != variable@[k].0 by {
                    assert(variable@[j] == before[j]);
                    assert(among(terms@, before[j].0, i as int));
                    if k == before.len() {
                        let m = choose|m: int| 0 <= m < i && (#[trigger] terms@[m]).0 == before[j].0;
                        assert(terms@[m].0 != terms@[i as int].0);
                    } else {
                        assert(variable@[k] == before[k]);
                    }
                }
            }
        } else {
            let value: i128 = match choices[c] {
                Some(current) => if upright {
                    current.1
                } else {
                    current.0
                },
                None => 0,
            };
            proof {
                if choices@[c as int] is Some {
                    let d = choices@[c as int]->Some_0;
                    let domain = list@[c as int].domain@;
                    assert(corridors::holds(domain, corridors::vector(d)));
                    let j = choose|j: int| 0 <= j < domain.len() && corridors::vector(#[trigger] domain[j]) == corridors::vector(d);
                    assert(-(size * p.limit) <= domain[j].0);
                }
            }
            assert(value == chosen_along(choices@[c as int], upright));
            constant = add_multiple(p, constant, number, value, Ghost(width), Ghost(size));
        }
        proof {
            assert forall|j: int| 0 <= j < variable@.len() implies among(terms@, (#[trigger] variable@[j]).0, i + 1) by {
                if j < before.len() {
                    assert(variable@[j] == before[j]);
                    assert(among(terms@, before[j].0, i as int));
                } else {
                    assert(terms@[i as int].0 == c);
                }
            }
        }
        i += 1;
    }
    let mut assignments: Vec<Assignment> = Vec::new();
    let mut partial: Assignment = Vec::new();
    assert(partial@ =~= Seq::<(usize, (i128, i128))>::empty());
    proof {
        domains::lemma_term_width(p, list@, terms@, i as nat);
        lemma_sum_fits(p, constant as int, domains::term_width(list@, terms@, i as nat), p.links@.len() as int);
    }
    enumerate_axis_cycle_assignments(p, list, &variable, upright, &mut partial, constant, &mut assignments);
    proof {
        assert(corridors::along((0int, 0int), upright) == 0);
        assert(contents(assignments@) =~= axis_repairs(list@, choices@, terms@, upright)->Some_0);
    }
    Some(assignments)
}

/// The corridor is one of the first `k` terms.
spec fn among(terms: Seq<(usize, i128)>, c: usize, k: int) -> bool {
    exists|m: int| 0 <= m < k && (#[trigger] terms[m]).0 == c
}

/// What is left of two assignments, put together in the order of the corridors.
pub open spec fn merged_from(
    rank: Seq<usize>,
    a: Seq<(usize, (i128, i128))>,
    b: Seq<(usize, (i128, i128))>,
    i: nat,
    j: nat,
) -> Seq<(usize, (i128, i128))>
    decreases (if i < a.len() { a.len() - i } else { 0 }) + (if j < b.len() { b.len() - j } else { 0 }),
{
    if i < a.len() && (j >= b.len() || !entry_before(rank, b[j as int], a[i as int])) {
        seq![a[i as int]] + merged_from(rank, a, b, i + 1, j)
    } else if j < b.len() {
        seq![b[j as int]] + merged_from(rank, a, b, i, j + 1)
    } else {
        Seq::empty()
    }
}

/// Two assignments put together, in the order of the corridors.
fn merge_assignments(list: Ghost<Seq<Corridor>>, rank: &Vec<usize>, a: &Assignment, b: &Assignment) -> (merged: Assignment)
    requires
        rank@.len() == list@.len(),
        assigns(list@, a@),
        assigns(list@, b@),
    ensures
        assigns(list@, merged@),
        merged@ == merged_from(rank@, a@, b@, 0, 0),
{
    let mut merged: Assignment = Vec::new();
    let mut i: usize = 0;
    let mut j: usize = 0;
    assert(merged@ + merged_from(rank@, a@, b@, 0, 0) =~= merged_from(rank@, a@, b@, 0, 0));
    while i < a.len() || j < b.len()
        invariant
            rank@.len() == list@.len(),
            assigns(list@, a@),
            assigns(list@, b@),
            assigns(list@, merged@),
            i <= a@.len(),
            j <= b@.len(),
            merged@ + merged_from(rank@, a@, b@, i as nat, j as nat) == merged_from(rank@, a@, b@, 0, 0),
        decreases a@.len() - i + b@.len() - j,
    {
        let ghost before = merged@;
        let ghost rest = merged_from(rank@, a@, b@, i as nat, j as nat);
        let first: bool = if i < a.len() && j < b.len() {
            assert(a@[i as int].0 < list@.len() && b@[j as int].0 < list@.len());
            !is_entry_before(rank, b[j], a[i])
        } else {
            i < a.len()
        };
        if first {
            assert(a@[i as int].0 < list@.len());
            merged.push(a[i]);
            i += 1;
        } else {
            assert(b@[j as int].0 < list@.len());
            merged.push(b[j]);
            j += 1;
        }
        proof {
            assert(merged@ + merged_from(rank@, a@, b@, i as nat, j as nat) =~= before + rest);
            assert forall|k: int| 0 <= k < merged@.len() implies (#[trigger] merged@[k]).0 < list@.len()
                && corridors::holds(list@[merged@[k].0 as int].domain@, corridors::vector(merged@[k].1)) by {
                if k < before.len() {
                    assert(merged@[k] == before[k]);
                }
            }
        }
    }
    assert(merged@ + merged_from(rank@, a@, b@, i as nat, j as nat) =~= merged@);
    merged
}

/// The number of combinations of vectors of the first `k` terms.
pub open spec fn combinations(list: Seq<Corridor>, terms: Seq<(usize, i128)>, k: nat) -> nat
    decreases k,
{
    if k == 0 {
        1
    } else {
        combinations(list, terms, (k - 1) as nat) * list[terms[k - 1].0 as int].domain@.len()
    }
}

proof fn lemma_combinations_grow(list: Seq<Corridor>, terms: Seq<(usize, i128)>, j: nat, k: nat)
    requires
        j <= k <= terms.len(),
        forall|i: int| 0 <= i < terms.len() ==> list[(#[trigger] terms[i]).0 as int].domain@.len() > 0,
    ensures
        combinations(list, terms, j) <= combinations(list, terms, k),
    decreases k,
{
    if j < k {
        lemma_combinations_grow(list, terms, j, (k - 1) as nat);
        let n = list[terms[k - 1].0 as int].domain@.len();
        let c = combinations(list, terms, (k - 1) as nat);
        assert(n > 0);
        assert(c <= c * n) by (nonlinear_arith)
            requires
                n >= 1,
        ;
    }
}

/// Whether there are no more than a hundred thousand combinations of vectors of the terms.
fn few_combinations(p: &PlacementProblem, list: &Vec<Corridor>, terms: &Vec<(usize, i128)>) -> (few: bool)
    requires
        placement::corridors_wf(p, list@),
        placement::terms_differ(list@, terms@),
    ensures
        few == (combinations(list@, terms@, terms@.len()) <= 100_000),
{
    proof {
        assert forall|i: int| 0 <= i < terms@.len() implies list@[(#[trigger] terms@[i]).0 as int].domain@.len() > 0 by {
            assert(terms@[i].0 < list@.len());
            assert(placement::corridor_wf(p, list@[terms@[i].0 as int]));
        }
    }
    let mut product: usize = 1;
    let mut i: usize = 0;
    while i < terms.len()
        invariant
            placement::terms_differ(list@, terms@),
            forall|j: int| 0 <= j < terms@.len() ==> list@[(#[trigger] terms@[j]).0 as int].domain@.len() > 0,
            i <= terms@.len(),
            product == combinations(list@, terms@, i as nat),
            product <= 100_000,
        decreases terms.len() - i,
    {
        assert(terms@[i as int].0 < list@.len());
        let n: usize = list[terms[i].0].domain.len();
        proof {
            lemma_combinations_grow(list@, terms@, (i + 1) as nat, terms@.len());
        }
        match product.checked_mul(n) {
            Some(more) => {
                if more > 100_000 {
                    return false;
                }
                product = more;
            },
            None => {
                return false;
            },
        }
        i += 1;
    }
    true
}

/// The first `k` assignments that change something, those with the fewest changes first.
pub open spec fn ranked_changes(
    rank: Seq<usize>,
    choices: Seq<Option<(i128, i128)>>,
    found: Seq<Seq<(usize, (i128, i128))>>,
    k: nat,
) -> Ranking
    decreases k,
{
    if k == 0 {
        Ranking { numbers: Seq::empty(), assignments: Seq::empty() }
    } else {
        let earlier = ranked_changes(rank, choices, found, (k - 1) as nat);
        let changes = changes_of(choices, found[k - 1], found[k - 1].len());
        if changes > 0 {
            ranked(rank, earlier, changes as usize, found[k - 1])
        } else {
            earlier
        }
    }
}

/// The assignment of one axis put together with the first `k` of the other, in order.
pub open spec fn ranked_pairs(
    rank: Seq<usize>,
    ranking: Ranking,
    one: Seq<(usize, (i128, i128))>,
    others: Seq<Seq<(usize, (i128, i128))>>,
    k: nat,
) -> Ranking
    decreases k,
{
    if k == 0 {
        ranking
    } else {
        let earlier = ranked_pairs(rank, ranking, one, others, (k - 1) as nat);
        let merged = merged_from(rank, one, others[k - 1], 0, 0);
        if merged.len() > 0 {
            ranked(rank, earlier, 0, merged)
        } else {
            earlier
        }
    }
}

/// The first `k` assignments of one axis put together with all of the other, in order.
pub open spec fn ranked_grid(
    rank: Seq<usize>,
    wide: Seq<Seq<(usize, (i128, i128))>>,
    high: Seq<Seq<(usize, (i128, i128))>>,
    k: nat,
) -> Ranking
    decreases k,
{
    if k == 0 {
        Ranking { numbers: Seq::empty(), assignments: Seq::empty() }
    } else {
        ranked_pairs(rank, ranked_grid(rank, wide, high, (k - 1) as nat), wide[k - 1], high, high.len())
    }
}

/// The assignments with which the terms of a contradiction add up to zero. Where there are few
/// terms and few combinations, those with the fewest changes come first; else the assignments
/// along each axis are put together.
pub open spec fn repairs_of(
    model: &PlacementModel,
    choices: Seq<Option<(i128, i128)>>,
    terms: Seq<(usize, i128)>,
) -> Seq<Seq<(usize, (i128, i128))>> {
    let list = model.corridors@;
    let rank = rank_of(model.order@);
    if terms.len() == 0 {
        Seq::empty()
    } else if terms.len() <= 8 && combinations(list, terms, terms.len()) <= 100_000 {
        let found = extensions(list, terms, Seq::empty()).filter(closing(terms));
        ranked_changes(rank, choices, found, found.len()).assignments
    } else {
        match (axis_repairs(list, choices, terms, false), axis_repairs(list, choices, terms, true)) {
            (Some(wide), Some(high)) => ranked_grid(rank, wide, high, wide.len()).assignments,
            _ => Seq::empty(),
        }
    }
}

/// Assignments with which the terms of a contradiction add up to zero, those with the fewest
/// changes first.
fn conflict_repair_states(
    p: &PlacementProblem,
    model: &PlacementModel,
    choices: &Vec<Option<(i128, i128)>>,
    terms: &Vec<(usize, i128)>,
) -> (assignments: Vec<Assignment>)
    requires
        p.wf(),
        model.wf(p),
        placement::choices_wf(model.corridors@, choices@),
        placement::terms_differ(model.corridors@, terms@),
        placement::small_terms(terms@),
    ensures
        all_assign(model.corridors@, assignments@),
        contents(assignments@) == repairs_of(model, choices@, terms@),
{
    let list: &Vec<Corridor> = &model.corridors;
    let rank: Vec<usize> = ranks(&model.order);
    let mut numbers: Vec<usize> = Vec::new();
    let mut repairs: Vec<Assignment> = Vec::new();
    proof {
        assert(contents(repairs@) =~= Seq::<Seq<(usize, (i128, i128))>>::empty());
        assert(numbers@ =~= Seq::<usize>::empty());
    }
    if terms.len() == 0 {
        return repairs;
    }
    if terms.len() <= 8 && few_combinations(p, list, terms) {
        let mut found: Vec<Assignment> = Vec::new();
        let mut partial: Assignment = Vec::new();
        assert(partial@ =~= Seq::<(usize, (i128, i128))>::empty());
        proof {
            assert(0 <= p.links@.len() * p.limit) by (nonlinear_arith)
                requires
                    0 <= p.limit,
            ;
        }
        enumerate_cycle_assignments(p, list, terms, &mut partial, (0, 0), &mut found);
        let ghost all = extensions(list@, terms@, Seq::empty()).filter(closing(terms@));
        assert(contents(found@) =~= all);
        let mut i: usize = 0;
        while i < found.len()
            invariant
                p.wf(),
                model.wf(p),
                list@ == model.corridors@,
                placement::choices_wf(list@, choices@),
                rank@.len() == list@.len(),
                forall|j: int| 0 <= j < found@.len() ==> closes_cycle(list@, terms@, (#[trigger] found@[j])@),
                i <= found@.len(),
                rank@ == rank_of(model.order@),
                all == contents(found@),
                ranking_of(numbers@, repairs@) == ranked_changes(rank@, choices@, all, i as nat),
                numbers@.len() == repairs@.len(),
                all_assign(list@, repairs@),
            decreases found.len() - i,
        {
            assert(closes_cycle(list@, terms@, found@[i as int]@));
            assert(all[i as int] == found@[i as int]@);
            let changes: usize = count_changes(choices, &found[i]);
            if changes > 0 {
                insert_assignment(
                    Ghost(list@),
                    &rank,
                    &mut numbers,
                    &mut repairs,
                    changes,
                    copy_assignment(&found[i]),
                );
            }
            i += 1;
        }
        return repairs;
    }
    let wide: Vec<Assignment> = match axis_conflict_repair_states(p, list, choices, terms, false) {
        Some(found) => found,
        None => {
            return repairs;
        },
    };
    let high: Vec<Assignment> = match axis_conflict_repair_states(p, list, choices, terms, true) {
        Some(found) => found,
        None => {
            return repairs;
        },
    };
    let ghost wides = contents(wide@);
    let ghost highs = contents(high@);
    let mut i: usize = 0;
    while i < wide.len()
        invariant
            wides == contents(wide@),
            highs == contents(high@),
            ranking_of(numbers@, repairs@) == ranked_grid(rank@, wides, highs, i as nat),
            rank@.len() == list@.len(),
            all_assign(list@, wide@),
            all_assign(list@, high@),
            i <= wide@.len(),
            numbers@.len() == repairs@.len(),
            all_assign(list@, repairs@),
        decreases wide.len() - i,
    {
        assert(assigns(list@, wide@[i as int]@));
        assert(wides[i as int] == wide@[i as int]@);
        let ghost entry = ranking_of(numbers@, repairs@);
        let mut j: usize = 0;
        while j < high.len()
            invariant
                wides == contents(wide@),
                highs == contents(high@),
                ranking_of(numbers@, repairs@) == ranked_pairs(rank@, entry, wides[i as int], highs, j as nat),
                rank@.len() == list@.len(),
                i < wide@.len(),
                assigns(list@, wide@[i as int]@),
                all_assign(list@, high@),
                j <= high@.len(),
                numbers@.len() == repairs@.len(),
                all_assign(list@, repairs@),
            decreases high.len() - j,
        {
            assert(assigns(list@, high@[j as int]@));
            assert(highs[j as int] == high@[j as int]@);
            assert(wides[i as int] == wide@[i as int]@);
            let merged: Assignment = merge_assignments(Ghost(list@), &rank, &wide[i], &high[j]);
            if merged.len() > 0 {
                insert_assignment(Ghost(list@), &rank, &mut numbers, &mut repairs, 0, merged);
            }
            j += 1;
        }
        i += 1;
    }
    repairs
}

/// How many of the first `k` vectors are not the one that was chosen.
pub open spec fn others_of(domain: Seq<(i128, i128)>, current: Option<(i128, i128)>, k: nat) -> nat
    decreases k,
{
    if k == 0 {
        0
    } else {
        others_of(domain, current, (k - 1) as nat) + (if current == Some(domain[k - 1]) {
            0nat
        } else {
            1
        })
    }
}

/// How many vectors of a corridor are not the one that was chosen.
fn count_alternatives(domain: &Vec<(i128, i128)>, current: Option<(i128, i128)>) -> (n: usize)
    ensures
        n == others_of(domain@, current, domain@.len()),
{
    let mut n: usize = 0;
    let mut i: usize = 0;
    while i < domain.len()
        invariant
            n <= i <= domain@.len(),
            n == others_of(domain@, current, i as nat),
        decreases domain.len() - i,
    {
        let same: bool = match current {
            Some(d) => domain[i].0 == d.0 && domain[i].1 == d.1,
            None => false,
        };
        assert(same == (current == Some(domain@[i as int])));
        if !same {
            n += 1;
        }
        i += 1;
    }
    n
}

/// Corridors, with how many other vectors they have.
pub struct Branches {
    pub families: Seq<usize>,
    pub counts: Seq<usize>,
}

/// The place among the first `n` in front of which all counts are as large.
pub open spec fn count_slot(counts: Seq<usize>, count: usize, n: nat) -> nat
    decreases n,
{
    if n == 0 {
        0
    } else if counts[n - 1] < count {
        count_slot(counts, count, (n - 1) as nat)
    } else {
        n
    }
}

/// The corridors of the first `k` terms that have other vectors, those with the most first, and
/// of those with the same number the earlier first.
pub open spec fn branches_of(
    list: Seq<Corridor>,
    choices: Seq<Option<(i128, i128)>>,
    terms: Seq<(usize, i128)>,
    k: nat,
) -> Branches
    decreases k,
{
    if k == 0 {
        Branches { families: Seq::empty(), counts: Seq::empty() }
    } else {
        let earlier = branches_of(list, choices, terms, (k - 1) as nat);
        let c = terms[k - 1].0;
        let domain = list[c as int].domain@;
        let count = others_of(domain, choices[c as int], domain.len());
        if count > 0 {
            let at = count_slot(earlier.counts, count as usize, earlier.counts.len()) as int;
            Branches {
                families: earlier.families.insert(at, c),
                counts: earlier.counts.insert(at, count as usize),
            }
        } else {
            earlier
        }
    }
}

/// The corridors of a contradiction that have other vectors, those with the most first.
fn conflict_family_branch_order(
    list: &Vec<Corridor>,
    choices: &Vec<Option<(i128, i128)>>,
    terms: &Vec<(usize, i128)>,
) -> (families: Vec<usize>)
    requires
        choices@.len() == list@.len(),
        placement::terms_differ(list@, terms@),
    ensures
        families@ == branches_of(list@, choices@, terms@, terms@.len()).families,
        forall|i: int| 0 <= i < families@.len() ==> (#[trigger] families@[i]) < list@.len(),
{
    let mut families: Vec<usize> = Vec::new();
    let mut counts: Vec<usize> = Vec::new();
    let mut i: usize = 0;
    proof {
        assert(families@ =~= Seq::<usize>::empty());
        assert(counts@ =~= Seq::<usize>::empty());
    }
    while i < terms.len()
        invariant
            choices@.len() == list@.len(),
            placement::terms_differ(list@, terms@),
            i <= terms@.len(),
            families@.len() == counts@.len(),
            (Branches { families: families@, counts: counts@ }) == branches_of(list@, choices@, terms@, i as nat),
            forall|j: int| 0 <= j < families@.len() ==> (#[trigger] families@[j]) < list@.len(),
        decreases terms.len() - i,
    {
        let c: usize = terms[i].0;
        assert(terms@[i as int].0 < list@.len());
        let n: usize = count_alternatives(&list[c].domain, choices[c]);
        if n > 0 {
            let mut at: usize = counts.len();
            while at > 0 && counts[at - 1] < n
                invariant
                    at <= counts@.len(),
                    count_slot(counts@, n, counts@.len()) == count_slot(counts@, n, at as nat),
                decreases at,
            {
                at -= 1;
            }
            let ghost before = families@;
            counts.insert(at, n);
            families.insert(at, c);
            proof {
                assert forall|j: int| 0 <= j < families@.len() implies (#[trigger] families@[j]) < list@.len() by {
                    if j < at {
                        assert(families@[j] == before[j]);
                    } else if j > at {
                        assert(families@[j] == before[j - 1]);
                    }
                }
            }
        }
        i += 1;
    }
    families
}

/// The choices after the first `k` vectors of an assignment were set, one after the other.
pub open spec fn applied(
    choices: Seq<Option<(i128, i128)>>,
    assignment: Seq<(usize, (i128, i128))>,
    k: nat,
) -> Seq<Option<(i128, i128)>>
    decreases k,
{
    if k == 0 {
        choices
    } else {
        applied(choices, assignment, (k - 1) as nat).update(assignment[k - 1].0 as int, Some(assignment[k - 1].1))
    }
}

/// Sets the vectors of an assignment.
fn apply_assignment(list: Ghost<Seq<Corridor>>, choices: &mut Vec<Option<(i128, i128)>>, assignment: &Assignment)
    requires
        placement::choices_wf(list@, old(choices)@),
        placement::complete(old(choices)@),
        assigns(list@, assignment@),
    ensures
        final(choices)@ == applied(old(choices)@, assignment@, assignment@.len()),
        placement::choices_wf(list@, final(choices)@),
        placement::complete(final(choices)@),
{
    let mut i: usize = 0;
    while i < assignment.len()
        invariant
            choices@ == applied(old(choices)@, assignment@, i as nat),
            placement::choices_wf(list@, choices@),
            placement::complete(choices@),
            assigns(list@, assignment@),
            i <= assignment@.len(),
        decreases assignment.len() - i,
    {
        let ghost before = choices@;
        let (c, d): (usize, (i128, i128)) = assignment[i];
        assert(assignment@[i as int].0 < list@.len());
        choices.set(c, Some(d));
        proof {
            assert forall|k: int| 0 <= k < list@.len() implies (#[trigger] choices@[k] matches Some(e)
                && corridors::holds(list@[k].domain@, corridors::vector(e))) by {
                if k != c {
                    assert(before[k] is Some);
                }
            }
        }
        i += 1;
    }
}

/// The contents of states.
pub open spec fn states_of(states: Seq<Vec<Option<(i128, i128)>>>) -> Seq<Seq<Option<(i128, i128)>>> {
    Seq::new(states.len(), |i: int| states[i]@)
}

/// What a search by repairs found, and the states that it has looked at.
pub struct RepairOutcome {
    pub solution: Option<Seq<Option<(i128, i128)>>>,
    pub seen: Seq<Seq<Option<(i128, i128)>>>,
}

/// How many more states may be looked at.
pub open spec fn repair_room(seen: Seq<Seq<Option<(i128, i128)>>>) -> nat {
    if seen.len() < 2048 {
        (2048 - seen.len()) as nat
    } else {
        0
    }
}

/// Where the chosen vectors contradict each other, each repair of the contradiction is tried in
/// turn, and what follows from it; then each other vector of each corridor of the contradiction.
/// No state is looked at twice, and no more than 2048 are.
pub open spec fn repair_search(
    p: &PlacementProblem,
    model: &PlacementModel,
    choices: Seq<Option<(i128, i128)>>,
    seen: Seq<Seq<Option<(i128, i128)>>>,
) -> RepairOutcome
    decreases repair_room(seen), 0int, 0int, 0int,
{
    let list = model.corridors@;
    if seen.len() >= 2048 || seen.contains(choices) {
        RepairOutcome { solution: None, seen }
    } else {
        let more = seen.push(choices);
        match placement::contradiction(p, list, choices) {
            None => RepairOutcome { solution: Some(choices), seen: more },
            Some(numbers) => if numbers.len() != list.len() {
                RepairOutcome { solution: None, seen: more }
            } else {
                let terms = placement::nonzero_terms(model.order@, numbers, model.order@.len());
                let tried = try_repairs(p, model, choices, repairs_of(model, choices, terms), 0, more);
                if tried.solution is Some || tried.seen.len() < more.len() {
                    tried
                } else {
                    try_families(
                        p,
                        model,
                        choices,
                        branches_of(list, choices, terms, terms.len()).families,
                        0,
                        0,
                        tried.seen,
                    )
                }
            },
        }
    }
}

/// The repairs from `i` on are tried.
pub open spec fn try_repairs(
    p: &PlacementProblem,
    model: &PlacementModel,
    choices: Seq<Option<(i128, i128)>>,
    repairs: Seq<Seq<(usize, (i128, i128))>>,
    i: int,
    seen: Seq<Seq<Option<(i128, i128)>>>,
) -> RepairOutcome
    decreases repair_room(seen), 1int, repairs.len() - i, 0int,
{
    if i < 0 || i >= repairs.len() {
        RepairOutcome { solution: None, seen }
    } else {
        let tried = repair_search(p, model, applied(choices, repairs[i], repairs[i].len()), seen);
        if tried.solution is Some || tried.seen.len() < seen.len() {
            tried
        } else {
            try_repairs(p, model, choices, repairs, i + 1, tried.seen)
        }
    }
}

/// The other vectors of the corridor at `j` are tried, from the one at `k` on, then those of the
/// corridors after it.
pub open spec fn try_families(
    p: &PlacementProblem,
    model: &PlacementModel,
    choices: Seq<Option<(i128, i128)>>,
    families: Seq<usize>,
    j: int,
    k: int,
    seen: Seq<Seq<Option<(i128, i128)>>>,
) -> RepairOutcome
    decreases
            repair_room(seen),
            1int,
            families.len() - j,
            model.corridors@[families[j] as int].domain@.len() - k,
{
    if j < 0 || j >= families.len() || k < 0 {
        RepairOutcome { solution: None, seen }
    } else {
        let c = families[j];
        let domain = model.corridors@[c as int].domain@;
        if k >= domain.len() {
            try_families(p, model, choices, families, j + 1, 0, seen)
        } else if choices[c as int] == Some(domain[k]) {
            try_families(p, model, choices, families, j, k + 1, seen)
        } else {
            let tried = repair_search(p, model, choices.update(c as int, Some(domain[k])), seen);
            if tried.solution is Some || tried.seen.len() < seen.len() {
                tried
            } else {
                try_families(p, model, choices, families, j, k + 1, tried.seen)
            }
        }
    }
}

/// The outcome of a search by repairs.
pub open spec fn is_repair_outcome(
    p: &PlacementProblem,
    model: &PlacementModel,
    solution: Option<Vec<(i128, i128)>>,
    seen: Seq<Vec<Option<(i128, i128)>>>,
    outcome: RepairOutcome,
) -> bool {
    &&& states_of(seen) == outcome.seen
    &&& match solution {
        Some(origins) => {
            &&& outcome.solution is Some
            &&& placement::fits(
                p,
                model.corridors@,
                outcome.solution->Some_0,
                placement::vectors(origins@),
            )
            &&& placement::is_rooted(p, model.corridors@, origins@)
            &&& search::is_placement(p, origins@)
        },
        None => outcome.solution is None,
    }
}

/// Changes the vectors around contradictions, one after the other, until none is left. No
/// more than 2048 states are looked at.
pub(crate) fn search_conflict_guided_repairs(
    p: &PlacementProblem,
    model: &PlacementModel,
    choices: &Vec<Option<(i128, i128)>>,
    seen: &mut Vec<Vec<Option<(i128, i128)>>>,
) -> (solution: Option<Vec<(i128, i128)>>)
    requires
        p.wf(),
        model.wf(p),
        placement::choices_wf(model.corridors@, choices@),
        placement::complete(choices@),
        old(seen)@.len() <= 2048,
    ensures
        old(seen)@.len() <= final(seen)@.len() <= 2048,
        is_repair_outcome(
            p,
            model,
            solution,
            final(seen)@,
            repair_search(p, model, choices@, states_of(old(seen)@)),
        ),
    decreases 2048 - old(seen)@.len(),
{
    let list: &Vec<Corridor> = &model.corridors;
    let ghost start = states_of(seen@);
    let ghost outcome = repair_search(p, model, choices@, start);
    let met: bool = has_state(seen, choices);
    proof {
        if met {
            let i = choose|i: int| 0 <= i < seen@.len() && (#[trigger] seen@[i])@ == choices@;
            assert(start[i] == choices@);
        }
        if start.contains(choices@) {
            let i = choose|i: int| 0 <= i < start.len() && start[i] == choices@;
            assert(seen@[i]@ == choices@);
        }
    }
    if seen.len() >= 2048 || met {
        return None;
    }
    let ghost n = seen@.len();
    let state: Vec<Option<(i128, i128)>> = copy_choices(choices);
    seen.push(state);
    let ghost more = start.push(choices@);
    assert(states_of(seen@) =~= more);
    let conflict: Conflict = match try_solve_origins_with_choices(p, list, choices) {
        Ok(origins) => {
            return Some(origins);
        },
        Err(conflict) => conflict,
    };
    if conflict.numbers.len() != list.len() {
        return None;
    }
    let terms: Vec<(usize, i128)> = terms_of(p, list, &model.order, &conflict.numbers);
    proof {
    }
    let families: Vec<usize> = conflict_family_branch_order(list, choices, &terms);
    let repairs: Vec<Assignment> = conflict_repair_states(p, model, choices, &terms);
    let ghost wanted = contents(repairs@);
    let ghost whole = try_repairs(p, model, choices@, wanted, 0, more);
    let mut i: usize = 0;
    while i < repairs.len()
        invariant
            p.wf(),
            model.wf(p),
            list@ == model.corridors@,
            placement::choices_wf(list@, choices@),
            placement::complete(choices@),
            all_assign(list@, repairs@),
            wanted == contents(repairs@),
            more.len() == n + 1,
            outcome == (if whole.solution is Some || whole.seen.len() < more.len() {
                whole
            } else {
                try_families(p, model, choices@, families@, 0, 0, whole.seen)
            }),
            try_repairs(p, model, choices@, wanted, i as int, states_of(seen@)) == whole,
            i <= repairs@.len(),
            outcome == repair_search(p, model, choices@, states_of(old(seen)@)),
            n == old(seen)@.len(),
            n < 2048,
            n < seen@.len() <= 2048,
        decreases repairs.len() - i,
    {
        assert(assigns(list@, repairs@[i as int]@));
        assert(wanted[i as int] == repairs@[i as int]@);
        let mut changed: Vec<Option<(i128, i128)>> = copy_choices(choices);
        apply_assignment(Ghost(list@), &mut changed, &repairs[i]);
        let ghost held = states_of(seen@);
        let ghost tried = repair_search(p, model, changed@, held);
        let found: Option<Vec<(i128, i128)>> = search_conflict_guided_repairs(p, model, &changed, seen);
        assert(tried.seen.len() == seen@.len());
        if found.is_some() {
            return found;
        }
        i += 1;
    }
    assert(whole == (RepairOutcome { solution: None, seen: states_of(seen@) }));
    assert(whole.seen.len() == seen@.len());
    let mut j: usize = 0;
    while j < families.len()
        invariant
            p.wf(),
            model.wf(p),
            list@ == model.corridors@,
            placement::choices_wf(list@, choices@),
            placement::complete(choices@),
            forall|i: int| 0 <= i < families@.len() ==> (#[trigger] families@[i]) < list@.len(),
            try_families(p, model, choices@, families@, j as int, 0, states_of(seen@)) == outcome,
            j <= families@.len(),
            outcome == repair_search(p, model, choices@, states_of(old(seen)@)),
            n == old(seen)@.len(),
            n < 2048,
            n < seen@.len() <= 2048,
        decreases families.len() - j,
    {
        let c: usize = families[j];
        assert(families@[j as int] < list@.len());
        let mut k: usize = 0;
        while k < list[c].domain.len()
            invariant
                p.wf(),
                model.wf(p),
                list@ == model.corridors@,
                placement::choices_wf(list@, choices@),
                placement::complete(choices@),
                j < families@.len(),
                c == families@[j as int],
                c < list@.len(),
                try_families(p, model, choices@, families@, j as int, k as int, states_of(seen@)) == outcome,
                k <= list@[c as int].domain@.len(),
                outcome == repair_search(p, model, choices@, states_of(old(seen)@)),
                n == old(seen)@.len(),
                n < 2048,
                n < seen@.len() <= 2048,
            decreases list@[c as int].domain@.len() - k,
        {
            let candidate: (i128, i128) = list[c].domain[k];
            let same: bool = match choices[c] {
                Some(current) => current.0 == candidate.0 && current.1 == candidate.1,
                None => false,
            };
            assert(same == (choices@[c as int] == Some(list@[c as int].domain@[k as int])));
            if !same {
                let mut changed: Vec<Option<(i128, i128)>> = copy_choices(choices);
                let one: Assignment = vec![(c, candidate)];
                proof {
                    assert(corridors::vector(list@[c as int].domain@[k as int]) == corridors::vector(candidate));
                    assert forall|i: int| 0 <= i < one@.len() implies (#[trigger] one@[i]).0 < list@.len()
                        && corridors::holds(list@[one@[i].0 as int].domain@, corridors::vector(one@[i].1)) by {
                        assert(one@[i] == (c, candidate));
                    }
                }
                apply_assignment(Ghost(list@), &mut changed, &one);
                proof {
                    assert(one@.len() == 1 && one@[0] == (c, candidate));
                    reveal_with_fuel(applied, 2);
                    assert(changed@ == choices@.update(c as int, Some(candidate)));
                }
                let ghost held = states_of(seen@);
                let ghost tried = repair_search(p, model, changed@, held);
                let found: Option<Vec<(i128, i128)>> = search_conflict_guided_repairs(p, model, &changed, seen);
                assert(tried.seen.len() == seen@.len());
                if found.is_some() {
                    return found;
                }
            }
            k += 1;
        }
        j += 1;
    }
    None
}

} // verus!
