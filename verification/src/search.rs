//! The search for a placement of linked pieces.
//!
//! First every corridor takes the vector that it prefers. Where these do not agree, the
//! corridors around the first contradiction are changed; then vectors are tried corridor by
//! corridor. The last resort tries origins piece by piece, and finds a placement whenever
//! there is one.

use crate::corridors::{has_vector, Vector};
use crate::domains::reduce_family_domains;
use crate::exact;
use crate::exact::{solve_origins_exact, SearchStop};
use crate::placement::{
    build_placement_model, first_end, propagate_origins, try_solve_origins_with_choices, Corridor,
    PlacementModel, PlacementProblem,
};
use crate::repairs::search_conflict_guided_repairs;
use crate::corridors;
use crate::domains;
use crate::placement;
use crate::repairs;
use vstd::prelude::*;

verus! {

/// The number of corridors without a chosen vector, or of pieces without an origin.
pub open spec fn open_count(list: Seq<Option<(i128, i128)>>, k: nat) -> nat
    decreases k,
{
    if k == 0 {
        0
    } else {
        open_count(list, (k - 1) as nat) + (if list[k - 1] is None {
            1nat
        } else {
            0
        })
    }
}

pub proof fn lemma_open_update(list: Seq<Option<(i128, i128)>>, c: int, d: (i128, i128), k: nat)
    requires
        0 <= c < list.len(),
        list[c] is None,
        k <= list.len(),
    ensures
        open_count(list.update(c, Some(d)), k) + (if c < k {
            1nat
        } else {
            0
        }) == open_count(list, k),
    decreases k,
{
    if k > 0 {
        lemma_open_update(list, c, d, (k - 1) as nat);
    }
}

/// Every vector that was chosen stays chosen.
pub open spec fn extends(small: Seq<Option<(i128, i128)>>, large: Seq<Option<(i128, i128)>>) -> bool {
    &&& small.len() == large.len()
    &&& forall|k: int| 0 <= k < small.len() && (#[trigger] small[k]) is Some ==> large[k] == small[k]
}

pub proof fn lemma_open_extends(small: Seq<Option<(i128, i128)>>, large: Seq<Option<(i128, i128)>>, k: nat)
    requires
        extends(small, large),
        k <= small.len(),
    ensures
        open_count(large, k) <= open_count(small, k),
    decreases k,
{
    if k > 0 {
        lemma_open_extends(small, large, (k - 1) as nat);
        if small[k - 1] is Some {
            assert(large[k - 1] == small[k - 1]);
        }
    }
}

/// The origins that agree with the choices, and that the corridors allow.
pub open spec fn solves(
    p: &PlacementProblem,
    list: Seq<Corridor>,
    choices: Seq<Option<(i128, i128)>>,
    t: Seq<Vector>,
) -> bool {
    placement::fits(p, list, choices, t) && domains::allowed(p, list, t)
}

/// The origins are those of a placement: all links allow them, one piece stands at the
/// origin of the board, and none is far away.
pub open spec fn is_placement(p: &PlacementProblem, origins: Seq<(i128, i128)>) -> bool {
    &&& p.coherent(placement::vectors(origins))
    &&& exists|v: int| 0 <= v < p.nodes && #[trigger] placement::vectors(origins)[v] == (0int, 0int)
    &&& forall|v: int| 0 <= v < p.nodes ==> placement::apart(Some(#[trigger] origins[v]))
}

/// The corridor does not join two pieces that were reached, or a vector that is left for it
/// leads from the one to the other.
pub open spec fn is_joined(
    p: &PlacementProblem,
    c: Corridor,
    left: Seq<(i128, i128)>,
    origins: Seq<Option<(i128, i128)>>,
) -> bool {
    match (origins[placement::start_of(p, c)], origins[placement::end_of(p, c)]) {
        (Some(a), Some(b)) => corridors::holds(left, corridors::minus(corridors::vector(b), corridors::vector(a))),
        _ => true,
    }
}

/// Some vectors are left for each corridor, and the chosen vectors, followed from the first end
/// on, do not contradict each other and leave a vector for every corridor between two pieces
/// that they reach.
pub open spec fn is_possible(
    p: &PlacementProblem,
    model: &PlacementModel,
    choices: Seq<Option<(i128, i128)>>,
) -> bool {
    let list = model.corridors@;
    match (
        domains::reduction(model, choices),
        placement::flood(p, list, choices, placement::first_root(p, list)),
    ) {
        (Some(left), Ok(flooded)) => forall|k: int|
            0 <= k < list.len() ==> #[trigger] is_joined(p, list[k], left[k], flooded.origins),
        _ => false,
    }
}

/// Whether the chosen vectors, followed from the first end on, do not contradict each other and
/// leave every corridor between two reached pieces a vector.
fn propagate_partial_family_choices(
    p: &PlacementProblem,
    model: &PlacementModel,
    choices: &Vec<Option<(i128, i128)>>,
) -> (possible: bool)
    requires
        p.wf(),
        model.wf(p),
        placement::choices_wf(model.corridors@, choices@),
    ensures
        possible == is_possible(p, model, choices@),
        !possible ==> forall|t: Seq<Vector>| !#[trigger] solves(p, model.corridors@, choices@, t),
{
    let list: &Vec<Corridor> = &model.corridors;
    let reduced: Vec<Vec<(i128, i128)>> = match reduce_family_domains(p, model, choices) {
        Some(reduced) => reduced,
        None => {
            return false;
        },
    };
    let root: usize = first_end(p, list);
    let origins: Vec<Option<(i128, i128)>> = match propagate_origins(p, list, choices, root) {
        Ok(origins) => origins,
        Err(_) => {
            return false;
        },
    };
    let mut k: usize = 0;
    while k < list.len()
        invariant
            p.wf(),
            model.wf(p),
            list@ == model.corridors@,
            placement::choices_wf(list@, choices@),
            domains::narrowed(list@, reduced@),
            domains::reduction(model, choices@) == Some(corridors::list_views(reduced@)),
            root == placement::first_root(p, list@),
            placement::flood(p, list@, choices@, root) matches Ok(flooded) && flooded.origins == origins@,
            forall|j: int| 0 <= j < k ==> #[trigger] is_joined(p, list@[j], reduced@[j]@, origins@),
            forall|t: Seq<Vector>| #[trigger]
                placement::fits(p, list@, choices@, t) && domains::allowed(p, list@, t) ==> domains::in_domains(
                    p,
                    list@,
                    reduced@,
                    t,
                ),
            root < p.nodes,
            placement::is_reach(p, list@, choices@, root as int, origins@),
            k <= list@.len(),
        decreases list.len() - k,
    {
        proof {
            assert(placement::corridor_wf(p, list@[k as int]));
            assert(p.link_wf(p.links@[list@[k as int].first as int]));
            assert(p.link_wf(p.links@[list@[k as int].last - 1]));
        }
        let start: usize = p.links[list[k].first].from;
        let end: usize = p.links[list[k].last - 1].to;
        match (origins[start], origins[end]) {
            (Some(a), Some(b)) => {
                proof {
                    assert(placement::near(origins@[start as int]) && placement::near(origins@[end as int]));
                }
                let delta: (i128, i128) = (b.0 - a.0, b.1 - a.1);
                let valid: bool = has_vector(&reduced[k], delta);
                assert(valid == is_joined(p, list@[k as int], reduced@[k as int]@, origins@));
                if !valid {
                    proof {
                        assert(corridors::list_views(reduced@)[k as int] == reduced@[k as int]@);
                        let flooded = placement::flood(
                            p,
                            list@,
                            choices@,
                            placement::first_root(p, list@),
                        )->Ok_0;
                        assert(!is_joined(
                            p,
                            list@[k as int],
                            domains::reduction(model, choices@)->Some_0[k as int],
                            flooded.origins,
                        ));
                        assert(!is_possible(p, model, choices@));
                        assert forall|t: Seq<Vector>| !#[trigger] solves(p, list@, choices@, t) by {
                            if solves(p, list@, choices@, t) {
                                let s = placement::shifted(t, t[root as int]);
                                placement::lemma_shifted_fits(p, list@, choices@, t, t[root as int]);
                                assert(s[root as int] == (0int, 0int));
                                assert(origins@[start as int] is Some && origins@[end as int] is Some);
                                assert(s[start as int] == corridors::vector(a));
                                assert(s[end as int] == corridors::vector(b));
                                assert(domains::in_domains(p, list@, reduced@, t));
                                assert(corridors::holds(
                                    reduced@[k as int]@,
                                    placement::gap(p, list@, t, k as int),
                                ));
                                assert(placement::gap(p, list@, t, k as int) == corridors::vector(delta));
                            }
                        }
                    }
                    return false;
                }
            },
            _ => {},
        }
        k += 1;
    }
    proof {
        let left = corridors::list_views(reduced@);
        assert forall|j: int| 0 <= j < list@.len() implies #[trigger] is_joined(p, list@[j], left[j], origins@) by {
            assert(is_joined(p, list@[j], reduced@[j]@, origins@));
        }
    }
    true
}

/// The corridors that have only one vector left get it.
pub open spec fn filled(left: Seq<Seq<(i128, i128)>>, choices: Seq<Option<(i128, i128)>>) -> Seq<Option<(i128, i128)>> {
    Seq::new(
        choices.len(),
        |c: int|
            if choices[c] is None && left[c].len() == 1 {
                Some(left[c][0])
            } else {
                choices[c]
            },
    )
}

/// The vectors that follow from those that were chosen, and whether no contradiction was found.
pub struct ForcedModel {
    pub possible: bool,
    pub choices: Seq<Option<(i128, i128)>>,
}

/// The corridors that have only one vector left get it, until none are added.
pub open spec fn forced_choices(
    p: &PlacementProblem,
    model: &PlacementModel,
    choices: Seq<Option<(i128, i128)>>,
) -> ForcedModel
    decreases open_count(choices, choices.len()),
{
    match domains::reduction(model, choices) {
        None => ForcedModel { possible: false, choices },
        Some(left) => {
            let next = filled(left, choices);
            if next == choices {
                ForcedModel { possible: true, choices }
            } else if !is_possible(p, model, next) {
                ForcedModel { possible: false, choices: next }
            } else if open_count(next, next.len()) < open_count(choices, choices.len()) {
                forced_choices(p, model, next)
            } else {
                ForcedModel { possible: false, choices: next }
            }
        },
    }
}

/// Chooses the vectors of corridors that have only one left, until none are added. Whether
/// no contradiction was found.
fn propagate_forced_family_choices(
    p: &PlacementProblem,
    model: &PlacementModel,
    choices: &mut Vec<Option<(i128, i128)>>,
) -> (possible: bool)
    requires
        p.wf(),
        model.wf(p),
        placement::choices_wf(model.corridors@, old(choices)@),
    ensures
        placement::choices_wf(model.corridors@, final(choices)@),
        extends(old(choices)@, final(choices)@),
        (ForcedModel { possible, choices: final(choices)@ }) == forced_choices(p, model, old(choices)@),
        possible ==> forall|t: Seq<Vector>| #[trigger]
            solves(p, model.corridors@, old(choices)@, t) ==> solves(p, model.corridors@, final(choices)@, t),
        !possible ==> forall|t: Seq<Vector>| !#[trigger] solves(p, model.corridors@, old(choices)@, t),
{
    let list: &Vec<Corridor> = &model.corridors;
    let ghost entry = choices@;
    let mut progress: bool = true;
    while progress
        invariant
            p.wf(),
            model.wf(p),
            list@ == model.corridors@,
            entry == old(choices)@,
            placement::choices_wf(list@, choices@),
            extends(entry, choices@),
            progress ==> forced_choices(p, model, choices@) == forced_choices(p, model, entry),
            !progress ==> forced_choices(p, model, entry) == (ForcedModel { possible: true, choices: choices@ }),
            forall|t: Seq<Vector>| #[trigger] solves(p, list@, entry, t) ==> solves(p, list@, choices@, t),
        decreases open_count(choices@, list@.len()), progress as int,
    {
        let reduced: Vec<Vec<(i128, i128)>> = match reduce_family_domains(p, model, choices) {
            Some(reduced) => reduced,
            None => {
                proof {
                    assert forall|t: Seq<Vector>| !#[trigger] solves(p, list@, entry, t) by {
                        if solves(p, list@, entry, t) {
                            assert(solves(p, list@, choices@, t));
                        }
                    }
                }
                return false;
            },
        };
        let ghost held = choices@;
        let ghost left = corridors::list_views(reduced@);
        let ghost next = filled(left, held);
        progress = false;
        let mut i: usize = 0;
        while i < model.order.len()
            invariant
                p.wf(),
                model.wf(p),
                list@ == model.corridors@,
                entry == old(choices)@,
                placement::choices_wf(list@, choices@),
                placement::choices_wf(list@, held),
                extends(entry, choices@),
                domains::narrowed(list@, reduced@),
                left == corridors::list_views(reduced@),
                next == filled(left, held),
                choices@.len() == held.len(),
                forall|j: int| 0 <= j < i ==> choices@[#[trigger] model.order@[j] as int] == next[model.order@[j] as int],
                forall|j: int|
                    i <= j < model.order@.len() ==> choices@[#[trigger] model.order@[j] as int]
                        == held[model.order@[j] as int],
                i <= model.order@.len(),
                forall|t: Seq<Vector>| #[trigger]
                    placement::fits(p, list@, held, t) && domains::allowed(p, list@, t) ==> domains::in_domains(
                        p,
                        list@,
                        reduced@,
                        t,
                    ),
                forall|t: Seq<Vector>| #[trigger] solves(p, list@, entry, t) ==> solves(p, list@, held, t),
                forall|t: Seq<Vector>| #[trigger] solves(p, list@, entry, t) ==> solves(p, list@, choices@, t),
                progress ==> open_count(choices@, list@.len()) < open_count(held, list@.len()),
                !progress ==> choices@ == held,
            decreases model.order.len() - i,
        {
            let c: usize = model.order[i];
            assert(model.order@[i as int] < list@.len());
            assert(choices@[model.order@[i as int] as int] == held[c as int]);
            assert(left[c as int] == reduced@[c as int]@);
            let ghost previous = choices@;
            assert(domains::part_of(reduced@[c as int]@, list@[c as int].domain@));
            if reduced[c].len() == 1 && choices[c].is_none() {
                let only: (i128, i128) = reduced[c][0];
                let ghost before = choices@;
                proof {
                    assert(reduced@[c as int]@[0] == only);
                    assert(corridors::holds(reduced@[c as int]@, corridors::vector(only)));
                    lemma_open_update(choices@, c as int, only, list@.len());
                }
                choices.set(c, Some(only));
                proof {
                    assert forall|k: int| 0 <= k < entry.len() && (#[trigger] entry[k]) is Some implies choices@[k]
                        == entry[k] by {
                        assert(before[k] == entry[k]);
                    }
                    assert forall|k: int| 0 <= k < list@.len() implies (#[trigger] choices@[k] matches Some(d)
                        ==> corridors::holds(list@[k].domain@, corridors::vector(d))) by {
                        if k != c {
                            assert(choices@[k] == before[k]);
                        }
                    }
                    assert forall|t: Seq<Vector>| #[trigger] solves(p, list@, entry, t) implies solves(
                        p,
                        list@,
                        choices@,
                        t,
                    ) by {
                        assert(solves(p, list@, before, t));
                        assert(solves(p, list@, held, t));
                        assert(domains::in_domains(p, list@, reduced@, t));
                        assert(corridors::holds(reduced@[c as int]@, placement::gap(p, list@, t, c as int)));
                        assert forall|k: int| 0 <= k < list@.len() implies (#[trigger] choices@[k] matches Some(d)
                            ==> placement::gap(p, list@, t, k) == corridors::vector(d)) by {
                            if k != c {
                                assert(choices@[k] == before[k]);
                            }
                        }
                    }
                }
                progress = true;
            }
            proof {
                assert(choices@[c as int] == next[c as int]);
                assert forall|j: int| 0 <= j < i + 1 implies choices@[#[trigger] model.order@[j] as int]
                    == next[model.order@[j] as int] by {
                    if j < i {
                        assert(model.order@[j] != model.order@[i as int]);
                        assert(previous[model.order@[j] as int] == next[model.order@[j] as int]);
                    }
                }
                assert forall|j: int| i + 1 <= j < model.order@.len() implies choices@[#[trigger] model.order@[j] as int]
                    == held[model.order@[j] as int] by {
                    assert(model.order@[i as int] != model.order@[j]);
                    assert(previous[model.order@[j] as int] == held[model.order@[j] as int]);
                }
            }
            i += 1;
        }
        proof {
            assert forall|k: int| 0 <= k < choices@.len() implies choices@[k] == next[k] by {
                assert(placement::ordered(model.order@, k));
                let j = choose|j: int| 0 <= j < model.order@.len() && #[trigger] model.order@[j] == k;
                assert(choices@[model.order@[j] as int] == next[model.order@[j] as int]);
            }
            assert(choices@ =~= next);
        }
        if progress {
            if !propagate_partial_family_choices(p, model, choices) {
                proof {
                    assert forall|t: Seq<Vector>| !#[trigger] solves(p, list@, entry, t) by {
                        if solves(p, list@, entry, t) {
                            assert(solves(p, list@, choices@, t));
                        }
                    }
                }
                return false;
            }
        }
    }
    true
}

proof fn lemma_open_less(small: Seq<Option<(i128, i128)>>, large: Seq<Option<(i128, i128)>>, c: int, k: nat)
    requires
        extends(small, large),
        0 <= c < k <= small.len(),
        small[c] is None,
        large[c] is Some,
    ensures
        open_count(large, k) < open_count(small, k),
    decreases k,
{
    if c < k - 1 {
        lemma_open_less(small, large, c, (k - 1) as nat);
        if small[k - 1] is Some {
            assert(large[k - 1] == small[k - 1]);
        }
    } else {
        lemma_open_extends(small, large, (k - 1) as nat);
    }
}

/// Whether two lists of choices are the same.
fn same_choices(a: &Vec<Option<(i128, i128)>>, b: &Vec<Option<(i128, i128)>>) -> (same: bool)
    ensures
        same == (a@ == b@),
{
    if a.len() != b.len() {
        return false;
    }
    let mut k: usize = 0;
    while k < a.len()
        invariant
            a@.len() == b@.len(),
            k <= a@.len(),
            forall|i: int| 0 <= i < k ==> a@[i] == b@[i],
        decreases a.len() - k,
    {
        let equal: bool = match (a[k], b[k]) {
            (None, None) => true,
            (Some(x), Some(y)) => x.0 == y.0 && x.1 == y.1,
            _ => false,
        };
        if !equal {
            assert(a@[k as int] != b@[k as int]);
            return false;
        }
        k += 1;
    }
    assert(a@ =~= b@);
    true
}

/// Whether a state is one of those that were met before.
pub(crate) fn has_state(states: &Vec<Vec<Option<(i128, i128)>>>, state: &Vec<Option<(i128, i128)>>) -> (found: bool)
    ensures
        found == exists|i: int| 0 <= i < states@.len() && (#[trigger] states@[i])@ == state@,
{
    let mut i: usize = 0;
    while i < states.len()
        invariant
            i <= states@.len(),
            forall|j: int| 0 <= j < i ==> (#[trigger] states@[j])@ != state@,
        decreases states.len() - i,
    {
        if same_choices(&states[i], state) {
            return true;
        }
        i += 1;
    }
    false
}

pub(crate) fn copy_choices(list: &Vec<Option<(i128, i128)>>) -> (copy: Vec<Option<(i128, i128)>>)
    ensures
        copy@ == list@,
{
    let mut copy: Vec<Option<(i128, i128)>> = Vec::new();
    let mut k: usize = 0;
    while k < list.len()
        invariant
            k <= list@.len(),
            copy@ == list@.take(k as int),
        decreases list.len() - k,
    {
        copy.push(list[k]);
        assert(list@.take(k + 1) =~= list@.take(k as int).push(list@[k as int]));
        k += 1;
    }
    assert(list@.take(k as int) =~= list@);
    copy
}

/// The corridor among the first `k` of the order without a chosen vector that has the fewest
/// left, the first of them.
pub open spec fn next_of(
    order: Seq<usize>,
    choices: Seq<Option<(i128, i128)>>,
    left: Seq<Seq<(i128, i128)>>,
    k: nat,
) -> Option<usize>
    decreases k,
{
    if k == 0 {
        None
    } else {
        let best = next_of(order, choices, left, (k - 1) as nat);
        let c = order[k - 1];
        if choices[c as int] is Some {
            best
        } else {
            match best {
                Some(b) => if left[c as int].len() < left[b as int].len() {
                    Some(c)
                } else {
                    best
                },
                None => Some(c),
            }
        }
    }
}

/// The corridor without a chosen vector that has the fewest left, the first of them in the
/// order of the model.
fn next_family(model: &PlacementModel, choices: &Vec<Option<(i128, i128)>>, reduced: &Vec<Vec<(i128, i128)>>) -> (next: Option<
    usize,
>)
    requires
        placement::is_order(model.order@, model.corridors@.len()),
        choices@.len() == model.corridors@.len(),
        reduced@.len() == model.corridors@.len(),
    ensures
        next == next_of(model.order@, choices@, corridors::list_views(reduced@), model.order@.len()),
        match next {
            Some(c) => {
                &&& c < choices@.len()
                &&& choices@[c as int] is None
                &&& forall|k: int|
                    0 <= k < choices@.len() && (#[trigger] choices@[k]) is None ==> reduced@[c as int]@.len()
                        <= reduced@[k]@.len()
            },
            None => placement::complete(choices@),
        },
{
    let mut next: Option<usize> = None;
    let mut i: usize = 0;
    while i < model.order.len()
        invariant
            placement::is_order(model.order@, model.corridors@.len()),
            choices@.len() == model.corridors@.len(),
            reduced@.len() == model.corridors@.len(),
            i <= model.order@.len(),
            next == next_of(model.order@, choices@, corridors::list_views(reduced@), i as nat),
            match next {
                Some(c) => {
                    &&& c < choices@.len()
                    &&& choices@[c as int] is None
                    &&& forall|j: int|
                        0 <= j < i && choices@[#[trigger] model.order@[j] as int] is None
                            ==> reduced@[c as int]@.len() <= reduced@[model.order@[j] as int]@.len()
                },
                None => forall|j: int| 0 <= j < i ==> choices@[#[trigger] model.order@[j] as int] is Some,
            },
        decreases model.order.len() - i,
    {
        let c: usize = model.order[i];
        assert(model.order@[i as int] < model.corridors@.len());
        assert(corridors::list_views(reduced@)[c as int] == reduced@[c as int]@);
        if choices[c].is_none() {
            match next {
                Some(best) => {
                    if reduced[c].len() < reduced[best].len() {
                        next = Some(c);
                    }
                },
                None => {
                    next = Some(c);
                },
            }
        }
        i += 1;
    }
    proof {
        assert forall|k: int| 0 <= k < choices@.len() implies match next {
            Some(c) => choices@[k] is None ==> reduced@[c as int]@.len() <= reduced@[k]@.len(),
            None => (#[trigger] choices@[k]) is Some,
        } by {
            assert(placement::ordered(model.order@, k));
            let j = choose|j: int| 0 <= j < model.order@.len() && #[trigger] model.order@[j] == k;
            assert(choices@[model.order@[j] as int] == choices@[k]);
        }
    }
    next
}

/// What a search by corridors found, what stays chosen after it, and the states that were found
/// to lead nowhere.
pub struct FamilyOutcome {
    pub solution: Option<Seq<Option<(i128, i128)>>>,
    pub choices: Seq<Option<(i128, i128)>>,
    pub dead: Seq<Seq<Option<(i128, i128)>>>,
}

/// What follows from the chosen vectors is chosen; then the vectors that are left of the
/// corridor with the fewest are tried, one after the other.
pub open spec fn family_search(
    p: &PlacementProblem,
    model: &PlacementModel,
    choices: Seq<Option<(i128, i128)>>,
    dead: Seq<Seq<Option<(i128, i128)>>>,
) -> FamilyOutcome
    decreases open_count(choices, choices.len()), 1int, 0int,
{
    let list = model.corridors@;
    let forced = forced_choices(p, model, choices);
    if !is_possible(p, model, choices) {
        FamilyOutcome { solution: None, choices, dead }
    } else if !forced.possible {
        FamilyOutcome { solution: None, choices: forced.choices, dead }
    } else {
        match domains::reduction(model, forced.choices) {
            None => FamilyOutcome { solution: None, choices: forced.choices, dead },
            Some(left) => if dead.contains(forced.choices) {
                FamilyOutcome { solution: None, choices: forced.choices, dead }
            } else {
                match next_of(model.order@, forced.choices, left, model.order@.len()) {
                    None => FamilyOutcome {
                        solution: if placement::contradiction(p, list, forced.choices) is None {
                            Some(forced.choices)
                        } else {
                            None
                        },
                        choices: forced.choices,
                        dead,
                    },
                    Some(c) => try_vectors(
                        p,
                        model,
                        forced.choices,
                        c,
                        left[c as int],
                        0,
                        forced.choices,
                        dead,
                        open_count(choices, choices.len()),
                    ),
                }
            },
        }
    }
}

/// The vectors of a corridor from `i` on are tried. If none leads to a placement, the state
/// leads nowhere.
pub open spec fn try_vectors(
    p: &PlacementProblem,
    model: &PlacementModel,
    state: Seq<Option<(i128, i128)>>,
    c: usize,
    vectors: Seq<(i128, i128)>,
    i: int,
    choices: Seq<Option<(i128, i128)>>,
    dead: Seq<Seq<Option<(i128, i128)>>>,
    bound: nat,
) -> FamilyOutcome
    decreases bound, 0int, vectors.len() - i,
{
    if i < 0 || i >= vectors.len() {
        FamilyOutcome { solution: None, choices, dead: dead.push(state) }
    } else {
        let next = choices.update(c as int, Some(vectors[i]));
        if open_count(next, next.len()) >= bound {
            FamilyOutcome { solution: None, choices, dead }
        } else {
            let tried = family_search(p, model, next, dead);
            if tried.solution is Some {
                tried
            } else {
                try_vectors(
                    p,
                    model,
                    state,
                    c,
                    vectors,
                    i + 1,
                    tried.choices.update(c as int, None),
                    tried.dead,
                    bound,
                )
            }
        }
    }
}

/// The outcome of a search by corridors.
pub open spec fn is_family_outcome(
    p: &PlacementProblem,
    model: &PlacementModel,
    solution: Option<Vec<(i128, i128)>>,
    choices: Seq<Option<(i128, i128)>>,
    dead: Seq<Vec<Option<(i128, i128)>>>,
    outcome: FamilyOutcome,
) -> bool {
    &&& choices == outcome.choices
    &&& repairs::states_of(dead) == outcome.dead
    &&& match solution {
        Some(origins) => {
            &&& outcome.solution is Some
            &&& placement::fits(
                p,
                model.corridors@,
                outcome.solution->Some_0,
                placement::vectors(origins@),
            )
            &&& placement::is_rooted(p, model.corridors@, origins@)
            &&& is_placement(p, origins@)
        },
        None => outcome.solution is None,
    }
}

/// One vector is left for each corridor.
pub open spec fn leaves_one(model: &PlacementModel, choices: Seq<Option<(i128, i128)>>) -> bool {
    domains::reduction(model, choices) matches Some(left) && forall|k: int|
        0 <= k < left.len() ==> (#[trigger] left[k]).len() == 1
}

/// Where one vector is left for each corridor, all are chosen.
proof fn lemma_forced_complete(p: &PlacementProblem, model: &PlacementModel, choices: Seq<Option<(i128, i128)>>)
    requires
        choices.len() == model.corridors@.len(),
        leaves_one(model, choices),
        forced_choices(p, model, choices).possible,
    ensures
        placement::complete(forced_choices(p, model, choices).choices),
        forced_choices(p, model, choices).choices.len() == choices.len(),
{
    let left = domains::reduction(model, choices)->Some_0;
    let next = filled(left, choices);
    reveal_with_fuel(forced_choices, 2);
    assert forall|k: int| 0 <= k < next.len() implies (#[trigger] next[k]) is Some by {
        assert(left[k].len() == 1);
    }
    if next != choices {
        if let Some(more) = domains::reduction(model, next) {
            assert(filled(more, next) =~= next);
        }
    }
}

/// Tries vectors corridor by corridor, those with the fewest left first.
///
/// What the tried vectors force stays chosen for the attempts that follow, so that a
/// placement can be missed.
fn search_family_choices(
    p: &PlacementProblem,
    model: &PlacementModel,
    choices: &mut Vec<Option<(i128, i128)>>,
    dead: &mut Vec<Vec<Option<(i128, i128)>>>,
) -> (solution: Option<Vec<(i128, i128)>>)
    requires
        p.wf(),
        model.wf(p),
        placement::choices_wf(model.corridors@, old(choices)@),
    ensures
        placement::choices_wf(model.corridors@, final(choices)@),
        extends(old(choices)@, final(choices)@),
        is_family_outcome(
            p,
            model,
            solution,
            final(choices)@,
            final(dead)@,
            family_search(p, model, old(choices)@, repairs::states_of(old(dead)@)),
        ),
        old(dead)@.len() == 0 && p.connected() && leaves_one(model, old(choices)@) && (exists|t: Seq<Vector>| #[trigger]
            solves(p, model.corridors@, old(choices)@, t)) ==> solution is Some,
    decreases open_count(old(choices)@, model.corridors@.len()),
{
    let list: &Vec<Corridor> = &model.corridors;
    let ghost outcome = family_search(p, model, choices@, repairs::states_of(dead@));
    let ghost start = repairs::states_of(dead@);
    let ghost first = choices@;
    let ghost sole = dead@.len() == 0 && p.connected() && leaves_one(model, first) && exists|t: Seq<Vector>| #[trigger]
        solves(p, list@, first, t);
    let ghost placed = choose|t: Seq<Vector>| #[trigger] solves(p, list@, first, t);
    assert(sole ==> solves(p, list@, first, placed));
    if !propagate_partial_family_choices(p, model, choices) {
        return None;
    }
    if !propagate_forced_family_choices(p, model, choices) {
        return None;
    }
    assert(sole ==> solves(p, list@, choices@, placed));
    proof {
        if sole {
            lemma_forced_complete(p, model, first);
        }
    }
    let reduced: Vec<Vec<(i128, i128)>> = match reduce_family_domains(p, model, choices) {
        Some(reduced) => reduced,
        None => {
            return None;
        },
    };
    let met: bool = has_state(dead, choices);
    proof {
        if met {
            let i = choose|i: int| 0 <= i < dead@.len() && (#[trigger] dead@[i])@ == choices@;
            assert(start[i] == choices@);
        }
        if start.contains(choices@) {
            let i = choose|i: int| 0 <= i < start.len() && start[i] == choices@;
            assert(dead@[i]@ == choices@);
        }
    }
    if met {
        return None;
    }
    let c: usize = match next_family(model, choices, &reduced) {
        Some(c) => c,
        None => {
            return match try_solve_origins_with_choices(p, list, choices) {
                Ok(origins) => Some(origins),
                Err(_) => None,
            };
        },
    };
    assert(!sole) by {
        assert(choices@[c as int] is None);
    }
    let state: Vec<Option<(i128, i128)>> = copy_choices(choices);
    let ghost entry = old(choices)@;
    let ghost held = choices@;
    let ghost bound = open_count(entry, entry.len());
    let ghost left = reduced@[c as int]@;
    proof {
        lemma_open_extends(entry, held, list@.len());
        assert(corridors::list_views(reduced@)[c as int] == left);
    }
    let mut i: usize = 0;
    while i < reduced[c].len()
        invariant
            !sole,
            sole == (old(dead)@.len() == 0 && p.connected() && leaves_one(model, old(choices)@) && exists|
                t: Seq<Vector>,
            | #[trigger] solves(p, list@, old(choices)@, t)),
            p.wf(),
            model.wf(p),
            list@ == model.corridors@,
            domains::narrowed(list@, reduced@),
            c < list@.len(),
            entry == old(choices)@,
            entry.len() == list@.len(),
            bound == open_count(entry, entry.len()),
            left == reduced@[c as int]@,
            outcome == family_search(p, model, old(choices)@, repairs::states_of(old(dead)@)),
            try_vectors(
                p,
                model,
                held,
                c,
                left,
                i as int,
                choices@,
                repairs::states_of(dead@),
                bound,
            ) == outcome,
            extends(entry, held),
            held[c as int] is None,
            open_count(held, list@.len()) <= open_count(entry, list@.len()),
            placement::choices_wf(list@, choices@),
            extends(held, choices@),
            i <= reduced@[c as int]@.len(),
        decreases reduced@[c as int]@.len() - i,
    {
        let candidate: (i128, i128) = reduced[c][i];
        let ghost before = choices@;
        proof {
            assert(domains::part_of(reduced@[c as int]@, list@[c as int].domain@));
            assert(corridors::holds(reduced@[c as int]@, corridors::vector(reduced@[c as int]@[i as int])));
        }
        choices.set(c, Some(candidate));
        proof {
            assert forall|k: int| 0 <= k < list@.len() implies (#[trigger] choices@[k] matches Some(d)
                ==> corridors::holds(list@[k].domain@, corridors::vector(d))) by {
                if k != c {
                    assert(choices@[k] == before[k]);
                }
            }
            lemma_open_less(held, choices@, c as int, list@.len());
        }
        let ghost tried = choices@;
        let found: Option<Vec<(i128, i128)>> = search_family_choices(p, model, choices, dead);
        proof {
            assert forall|k: int| 0 <= k < entry.len() && (#[trigger] entry[k]) is Some implies choices@[k] == entry[k] by {
                assert(held[k] == entry[k]);
                assert(tried[k] == held[k]);
            }
        }
        if found.is_some() {
            return found;
        }
        let ghost after = choices@;
        choices.set(c, None);
        proof {
            assert forall|k: int| 0 <= k < list@.len() implies (#[trigger] choices@[k] matches Some(d)
                ==> corridors::holds(list@[k].domain@, corridors::vector(d))) by {
                if k != c {
                    assert(choices@[k] == after[k]);
                }
            }
            assert forall|k: int| 0 <= k < held.len() && (#[trigger] held[k]) is Some implies choices@[k] == held[k] by {
                assert(before[k] == held[k]);
                assert(tried[k] == before[k]);
            }
        }
        i += 1;
    }
    proof {
        assert forall|k: int| 0 <= k < entry.len() && (#[trigger] entry[k]) is Some implies choices@[k] == entry[k] by {
            assert(held[k] == entry[k]);
        }
    }
    let ghost met_before = repairs::states_of(dead@);
    dead.push(state);
    assert(repairs::states_of(dead@) =~= met_before.push(held));
    None
}

/// In a placement that all links prefer, the vector of a corridor is the one that it prefers.
proof fn lemma_preferred_gap(p: &PlacementProblem, c: Corridor, t: Seq<Vector>, k: nat)
    requires
        p.wf(),
        placement::corridor_wf(p, c),
        p.preferred(t),
        k < c.last - c.first,
    ensures
        corridors::minus(t[p.links@[c.first + k].to as int], t[placement::start_of(p, c)]) == corridors::first_sum(
            placement::delta_lists(p, c.first as int, c.last as int),
            k + 1,
        ),
    decreases k,
{
    let lists = placement::delta_lists(p, c.first as int, c.last as int);
    let link = p.links@[c.first + k];
    assert(p.link_prefers(t, link));
    assert(lists[k as int] == link.deltas@);
    reveal_with_fuel(corridors::first_sum, 2);
    if k > 0 {
        lemma_preferred_gap(p, c, t, (k - 1) as nat);
        assert(placement::chained_at(p, c.first + k - 1));
    }
}

/// In a placement, the vector of a corridor is a sum of vectors of its links.
proof fn lemma_coherent_gap(p: &PlacementProblem, c: Corridor, t: Seq<Vector>, k: nat)
    requires
        p.wf(),
        placement::corridor_wf(p, c),
        p.coherent(t),
        k < c.last - c.first,
    ensures
        corridors::is_sum(
            placement::delta_lists(p, c.first as int, c.last as int),
            k + 1,
            corridors::minus(t[p.links@[c.first + k].to as int], t[placement::start_of(p, c)]),
        ),
    decreases k,
{
    let lists = placement::delta_lists(p, c.first as int, c.last as int);
    let link = p.links@[c.first + k];
    let total = corridors::minus(t[link.to as int], t[placement::start_of(p, c)]);
    assert(p.link_holds(t, link));
    assert(lists[k as int] == link.deltas@);
    let i = choose|i: int|
        0 <= i < link.deltas@.len() && corridors::vector(#[trigger] link.deltas@[i]) == corridors::minus(
            t[link.to as int],
            t[link.from as int],
        );
    let n = k + 1;
    assert(lists[n - 1][i] == link.deltas@[i]);
    if k > 0 {
        lemma_coherent_gap(p, c, t, (k - 1) as nat);
        assert(placement::chained_at(p, c.first + k - 1));
        let earlier = corridors::minus(t[link.from as int], t[placement::start_of(p, c)]);
        assert(corridors::is_sum(lists, k, earlier));
        assert(corridors::minus(total, corridors::vector(lists[k as int][i])) == earlier);
    } else {
        assert(corridors::minus(total, corridors::vector(lists[k as int][i])) == (0int, 0int));
    }
    assert(corridors::is_sum(lists, (n - 1) as nat, corridors::minus(total, corridors::vector(lists[n - 1][i]))));
}

/// The corridors allow the vectors of every placement.
proof fn lemma_coherent_solves(p: &PlacementProblem, list: Seq<Corridor>, choices: Seq<Option<(i128, i128)>>, t: Seq<Vector>)
    requires
        p.wf(),
        placement::corridors_wf(p, list),
        p.coherent(t),
        choices == none_chosen(list),
    ensures
        solves(p, list, choices, t),
{
    assert forall|k: int| 0 <= k < list.len() implies corridors::holds(
        (#[trigger] list[k]).domain@,
        placement::gap(p, list, t, k),
    ) by {
        let c = list[k];
        assert(placement::corridor_wf(p, c));
        lemma_coherent_gap(p, c, t, (c.last - c.first - 1) as nat);
    }
}

/// The vectors that the corridors prefer.
fn canonical_family_choices(p: &PlacementProblem, list: &Vec<Corridor>) -> (choices: Vec<Option<(i128, i128)>>)
    requires
        p.wf(),
        placement::corridors_wf(p, list@),
    ensures
        placement::choices_wf(list@, choices@),
        placement::complete(choices@),
        placement::favourite(list@, choices@),
        choices@ == placement::all_chosen(list@),
        forall|t: Seq<Vector>| #[trigger] p.preferred(t) ==> placement::fits(p, list@, choices@, t),
{
    let mut choices: Vec<Option<(i128, i128)>> = Vec::new();
    let mut k: usize = 0;
    while k < list.len()
        invariant
            p.wf(),
            placement::corridors_wf(p, list@),
            k <= list@.len(),
            choices@.len() == k,
            forall|j: int| 0 <= j < k ==> #[trigger] choices@[j] == Some(list@[j].domain@[0]),
        decreases list.len() - k,
    {
        assert(placement::corridor_wf(p, list@[k as int]));
        choices.push(Some(list[k].domain[0]));
        k += 1;
    }
    proof {
        assert forall|j: int| 0 <= j < list@.len() implies (#[trigger] choices@[j] matches Some(d)
            && corridors::holds(list@[j].domain@, corridors::vector(d))) by {
            assert(placement::corridor_wf(p, list@[j]));
            assert(corridors::vector(list@[j].domain@[0]) == corridors::vector(choices@[j]->Some_0));
        }
        assert forall|t: Seq<Vector>| #[trigger] p.preferred(t) implies placement::fits(p, list@, choices@, t) by {
            assert forall|j: int| 0 <= j < list@.len() implies (#[trigger] choices@[j] matches Some(d)
                ==> placement::gap(p, list@, t, j) == corridors::vector(d)) by {
                let c = list@[j];
                assert(placement::corridor_wf(p, c));
                lemma_preferred_gap(p, c, t, (c.last - c.first - 1) as nat);
            }
        }
    }
    choices
}

/// Why there is no placement.
#[derive(Debug, Clone, Copy)]
pub enum PlacementError {
    /// The search by corridors failed, and no other is allowed.
    FallbackDisabled,
    /// There is no placement.
    NotFound,
    /// The search by pieces looked at as many states as it may.
    LimitExceeded { limit: usize },
    /// The pieces do not hang together.
    Disconnected,
}

/// No corridor has a vector.
pub open spec fn none_chosen(list: Seq<Corridor>) -> Seq<Option<(i128, i128)>> {
    Seq::new(list.len(), |k: int| None)
}

/// The result of the searches over the corridors of a problem, one after the other.
///
/// The preferred vectors are tried first, then repairs of them, then all vectors corridor by
/// corridor. Where none of these finds a placement, pieces are set one by one if that is allowed.
/// That search ends because of its limit only when it has looked at more states than that.
///
/// A placement is found without it if the squares and cycles leave one vector for each corridor,
/// there is a placement, and the pieces hang together.
pub open spec fn is_search_result(
    p: &PlacementProblem,
    model: &PlacementModel,
    allow_exact: bool,
    limit: Option<usize>,
    result: Result<Vec<(i128, i128)>, PlacementError>,
) -> bool {
    let list = model.corridors@;
    let first = placement::all_chosen(list);
    let repaired = repairs::repair_search(p, model, first, Seq::empty()).solution;
    let chosen = family_search(p, model, none_chosen(list), Seq::empty()).solution;
    &&& p.connected() && leaves_one(model, none_chosen(list)) && (exists|t: Seq<Vector>| #[trigger] p.coherent(t))
        ==> result is Ok
    &&& if placement::contradiction(p, list, first) is None {
        result matches Ok(origins) && placement::fits(p, list, first, placement::vectors(origins@))
            && placement::is_rooted(p, list, origins@)
    } else if repaired is Some {
        result matches Ok(origins) && placement::fits(p, list, repaired->Some_0, placement::vectors(origins@))
            && placement::is_rooted(p, list, origins@)
    } else if chosen is Some {
        result matches Ok(origins) && placement::fits(p, list, chosen->Some_0, placement::vectors(origins@))
            && placement::is_rooted(p, list, origins@)
    } else if !allow_exact {
        result == Err::<Vec<(i128, i128)>, PlacementError>(PlacementError::FallbackDisabled)
    } else {
        let outcome = exact::exact_search(p, limit, exact::first_state(p), Seq::empty(), 0);
        match outcome.result {
            exact::ExactResult::Found(found) => result matches Ok(origins) && origins@ == found,
            exact::ExactResult::Nowhere => result == Err::<Vec<(i128, i128)>, PlacementError>(
                PlacementError::NotFound,
            ),
            exact::ExactResult::LimitExceeded(n) => outcome.visited > n && result == Err::<
                Vec<(i128, i128)>,
                PlacementError,
            >(PlacementError::LimitExceeded { limit: n }),
            exact::ExactResult::Disconnected => result == Err::<Vec<(i128, i128)>, PlacementError>(
                PlacementError::Disconnected,
            ),
        }
    }
}

/// The result of placing pieces.
///
/// Where all pieces can stand as their links prefer, they do. Otherwise some placement is
/// returned, if one of the searches finds one (see `is_search_result`). The search by pieces finds
/// one whenever there is one, if the pieces hang together and it may look at all states.
pub open spec fn is_placement_result(
    p: &PlacementProblem,
    allow_exact: bool,
    limit: Option<usize>,
    result: Result<Vec<(i128, i128)>, PlacementError>,
) -> bool {
    &&& match result {
        Ok(origins) => is_placement(p, origins@),
        Err(PlacementError::FallbackDisabled) => !allow_exact,
        Err(PlacementError::NotFound) => allow_exact && forall|t: Seq<Vector>| !#[trigger] p.coherent(t),
        Err(PlacementError::LimitExceeded { limit: n }) => allow_exact && limit == Some(n),
        Err(PlacementError::Disconnected) => allow_exact && !p.connected(),
    }
    &&& exists|model: PlacementModel| #[trigger]
        placement::is_model(p, &model) && is_search_result(p, &model, allow_exact, limit, result)
    &&& p.connected() ==> forall|t: Seq<Vector>| #[trigger]
        p.preferred(t) ==> (result matches Ok(origins) && p.preferred(placement::vectors(origins@)))
}

/// Places all pieces.
pub fn solve_origins(p: &PlacementProblem, allow_exact: bool, limit: Option<usize>) -> (result: Result<
    Vec<(i128, i128)>,
    PlacementError,
>)
    requires
        p.wf(),
    ensures
        is_placement_result(p, allow_exact, limit, result),
{
    let model: PlacementModel = build_placement_model(p);
    let canonical: Vec<Option<(i128, i128)>> = canonical_family_choices(p, &model.corridors);
    assert(placement::is_model(p, &model));
    assert(canonical@ =~= placement::all_chosen(model.corridors@));
    match try_solve_origins_with_choices(p, &model.corridors, &canonical) {
        Ok(origins) => {
            return Ok(origins);
        },
        Err(_) => {},
    }
    proof {
        assert(p.connected() ==> forall|t: Seq<Vector>| !#[trigger] p.preferred(t)) by {
            if p.connected() {
                assert forall|t: Seq<Vector>| !#[trigger] p.preferred(t) by {
                    if p.preferred(t) {
                        assert(placement::fits(p, model.corridors@, canonical@, t));
                    }
                }
            }
        }
    }
    let mut seen: Vec<Vec<Option<(i128, i128)>>> = Vec::new();
    assert(repairs::states_of(seen@) =~= Seq::<Seq<Option<(i128, i128)>>>::empty());
    match search_conflict_guided_repairs(p, &model, &canonical, &mut seen) {
        Some(origins) => {
            return Ok(origins);
        },
        None => {},
    }
    let mut choices: Vec<Option<(i128, i128)>> = Vec::new();
    let mut k: usize = 0;
    while k < model.corridors.len()
        invariant
            k <= model.corridors@.len(),
            choices@.len() == k,
            forall|j: int| 0 <= j < k ==> (#[trigger] choices@[j]) is None,
        decreases model.corridors.len() - k,
    {
        choices.push(None);
        k += 1;
    }
    let mut dead: Vec<Vec<Option<(i128, i128)>>> = Vec::new();
    assert(repairs::states_of(dead@) =~= Seq::<Seq<Option<(i128, i128)>>>::empty());
    assert(choices@ =~= none_chosen(model.corridors@));
    proof {
        assert forall|t: Seq<Vector>| #[trigger] p.coherent(t) implies solves(p, model.corridors@, choices@, t) by {
            lemma_coherent_solves(p, model.corridors@, choices@, t);
        }
    }
    match search_family_choices(p, &model, &mut choices, &mut dead) {
        Some(origins) => {
            return Ok(origins);
        },
        None => {},
    }
    if !allow_exact {
        return Err(PlacementError::FallbackDisabled);
    }
    match solve_origins_exact(p, limit) {
        Ok(Some(origins)) => Ok(origins),
        Ok(None) => Err(PlacementError::NotFound),
        Err(SearchStop::LimitExceeded { limit: n }) => Err(PlacementError::LimitExceeded { limit: n }),
        Err(SearchStop::Disconnected) => Err(PlacementError::Disconnected),
    }
}

/// The message of an error.
pub open spec fn placement_text(error: PlacementError) -> Seq<char> {
    match error {
        PlacementError::FallbackDisabled =>
            "Family-based placement failed and exact placement fallback is disabled"@,
        _ =>
            "Family-based placement failed before exact fallback: No globally coherent placement-family selection found"@,
    }
}

impl PlacementError {
    /// The message of the error.
    pub fn to_string(&self) -> (message: String)
        ensures
            message@ == placement_text(*self),
    {
        match self {
            PlacementError::FallbackDisabled => {
                "Family-based placement failed and exact placement fallback is disabled".to_owned()
            },
            _ => {
                "Family-based placement failed before exact fallback: No globally coherent placement-family selection found".to_owned()
            },
        }
    }
}

/// A search by pieces that may look at all states finds a placement exactly when there is
/// one, if the pieces hang together.
pub proof fn law_exact_search_decides(p: &PlacementProblem, result: Result<Vec<(i128, i128)>, PlacementError>)
    requires
        p.wf(),
        p.connected(),
        is_placement_result(p, true, None, result),
    ensures
        result is Ok <==> exists|t: Seq<Vector>| #[trigger] p.coherent(t),
{
    if let Ok(origins) = result {
        assert(p.coherent(placement::vectors(origins@)));
    }
}

/// Where the squares and cycles leave one vector for each corridor, the placement that there is
/// is found, whatever searches are allowed, if the pieces hang together.
pub proof fn law_one_choice_is_placed(
    p: &PlacementProblem,
    allow_exact: bool,
    limit: Option<usize>,
    result: Result<Vec<(i128, i128)>, PlacementError>,
)
    requires
        p.wf(),
        p.connected(),
        exists|t: Seq<Vector>| #[trigger] p.coherent(t),
        forall|model: PlacementModel| #[trigger]
            placement::is_model(p, &model) ==> leaves_one(&model, none_chosen(model.corridors@)),
        is_placement_result(p, allow_exact, limit, result),
    ensures
        result is Ok,
{
    let model = choose|model: PlacementModel| #[trigger]
        placement::is_model(p, &model) && is_search_result(p, &model, allow_exact, limit, result);
    assert(leaves_one(&model, none_chosen(model.corridors@)));
}

} // verus!
