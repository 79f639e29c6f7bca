//! What is left of the vectors of corridors when those that fit no others are dropped.

use crate::corridors::{corridor_suffix_sums, extend_sums, has_vector, Vector, VectorSet};
use crate::placement::{Corridor, PlacementModel, PlacementProblem, PlaquetteConstraint};
use crate::corridors;
use crate::placement;
use crate::seqs;
use vstd::prelude::*;

verus! {

/// The vectors between the origins are among those that are left.
pub open spec fn in_domains(
    p: &PlacementProblem,
    list: Seq<Corridor>,
    domains: Seq<Vec<(i128, i128)>>,
    origins: Seq<Vector>,
) -> bool {
    &&& origins.len() == p.nodes
    &&& forall|k: int|
        0 <= k < list.len() ==> corridors::holds(#[trigger] domains[k]@, placement::gap(p, list, origins, k))
}

/// The corridors allow the vectors between the origins.
pub open spec fn allowed(p: &PlacementProblem, list: Seq<Corridor>, origins: Seq<Vector>) -> bool {
    &&& origins.len() == p.nodes
    &&& forall|k: int|
        0 <= k < list.len() ==> corridors::holds(
            (#[trigger] list[k]).domain@,
            placement::gap(p, list, origins, k),
        )
}

/// The lists, as sets of vectors.
pub open spec fn sets(lists: Seq<Seq<(i128, i128)>>) -> Seq<Set<Vector>> {
    Seq::new(lists.len(), |k: int| Set::new(|d: Vector| corridors::holds(lists[k], d)))
}

/// Each set is part of the other at the same place.
pub open spec fn part(a: Seq<Set<Vector>>, b: Seq<Set<Vector>>) -> bool {
    &&& a.len() == b.len()
    &&& forall|k: int, d: Vector| 0 <= k < a.len() && #[trigger] a[k].contains(d) ==> b[k].contains(d)
}

/// The set holds a vector.
pub open spec fn inhabited(set: Set<Vector>) -> bool {
    exists|d: Vector| set.contains(d)
}

/// Vectors of the four sets around a square with which both ways around it lead to the same
/// place.
pub open spec fn squared(
    family: Seq<Set<Vector>>,
    square: PlaquetteConstraint,
    top: Vector,
    right: Vector,
    left: Vector,
    bottom: Vector,
) -> bool {
    &&& family[square.top as int].contains(top)
    &&& family[square.right as int].contains(right)
    &&& family[square.left as int].contains(left)
    &&& family[square.bottom as int].contains(bottom)
    &&& corridors::plus(top, right) == corridors::plus(left, bottom)
}

/// The corridor at a side of a square: top, right, left and bottom.
pub open spec fn side_corridor(square: PlaquetteConstraint, side: int) -> int {
    if side == 0 {
        square.top as int
    } else if side == 1 {
        square.right as int
    } else if side == 2 {
        square.left as int
    } else {
        square.bottom as int
    }
}

/// The vector at a side of a square.
pub open spec fn side_vector(side: int, top: Vector, right: Vector, left: Vector, bottom: Vector) -> Vector {
    if side == 0 {
        top
    } else if side == 1 {
        right
    } else if side == 2 {
        left
    } else {
        bottom
    }
}

/// The square can close with the vector at the side.
pub open spec fn supports_side(family: Seq<Set<Vector>>, square: PlaquetteConstraint, side: int, d: Vector) -> bool {
    exists|top: Vector, right: Vector, left: Vector, bottom: Vector| #[trigger]
        squared(family, square, top, right, left, bottom) && side_vector(side, top, right, left, bottom) == d
}

pub open spec fn side_test(family: Seq<Set<Vector>>, square: PlaquetteConstraint, side: int) -> spec_fn(
    (i128, i128),
) -> bool {
    |d: (i128, i128)| supports_side(family, square, side, corridors::vector(d))
}

/// The square can close with every vector at each of its sides.
pub open spec fn square_stable(family: Seq<Set<Vector>>, square: PlaquetteConstraint) -> bool {
    forall|side: int, d: Vector|
        0 <= side < 4 && family[side_corridor(square, side)].contains(d) ==> #[trigger] supports_side(
            family,
            square,
            side,
            d,
        )
}

/// The vectors, each multiplied by the number of its term, added up.
pub open spec fn pick_sum(terms: Seq<(usize, i128)>, picks: Seq<Vector>, k: nat) -> Vector
    decreases k,
{
    if k == 0 {
        (0int, 0int)
    } else {
        corridors::plus(pick_sum(terms, picks, (k - 1) as nat), times(terms[k - 1].1, picks[k - 1]))
    }
}

/// The vectors are from the sets of the first `k` terms.
pub open spec fn picked(family: Seq<Set<Vector>>, terms: Seq<(usize, i128)>, picks: Seq<Vector>, k: nat) -> bool {
    &&& picks.len() == k
    &&& forall|i: int| 0 <= i < k ==> family[terms[i].0 as int].contains(#[trigger] picks[i])
}

/// A vector for each term of a cycle, with which the terms add up to zero.
pub open spec fn balanced(family: Seq<Set<Vector>>, terms: Seq<(usize, i128)>, picks: Seq<Vector>) -> bool {
    &&& picked(family, terms, picks, terms.len())
    &&& pick_sum(terms, picks, terms.len()) == (0int, 0int)
}

/// Vectors of the other terms complete the vector of a term to zero.
pub open spec fn supports_term(family: Seq<Set<Vector>>, terms: Seq<(usize, i128)>, i: int, d: Vector) -> bool {
    exists|picks: Seq<Vector>| #[trigger] balanced(family, terms, picks) && picks[i] == d
}

pub open spec fn term_test(family: Seq<Set<Vector>>, terms: Seq<(usize, i128)>, i: int) -> spec_fn((i128, i128)) -> bool {
    |d: (i128, i128)| supports_term(family, terms, i, corridors::vector(d))
}

/// The terms of the cycle can add up to zero with every vector of each of them.
pub open spec fn cycle_stable(family: Seq<Set<Vector>>, terms: Seq<(usize, i128)>) -> bool {
    forall|i: int, d: Vector|
        0 <= i < terms.len() && family[terms[i].0 as int].contains(d) ==> #[trigger] supports_term(family, terms, i, d)
}

/// One set for each corridor, none of them empty, of which every vector fits others around all
/// squares and cycles.
pub open spec fn is_stable(model: &PlacementModel, family: Seq<Set<Vector>>) -> bool {
    &&& family.len() == model.corridors@.len()
    &&& forall|k: int| 0 <= k < family.len() ==> inhabited(#[trigger] family[k])
    &&& forall|i: int| 0 <= i < model.plaquettes@.len() ==> square_stable(family, #[trigger] model.plaquettes@[i])
    &&& forall|i: int| 0 <= i < model.cycles@.len() ==> cycle_stable(family, (#[trigger] model.cycles@[i])@)
}

/// The lists of a model, with only the chosen vector where one was chosen.
pub open spec fn start_lists(list: Seq<Corridor>, choices: Seq<Option<(i128, i128)>>) -> Seq<Seq<(i128, i128)>> {
    Seq::new(
        list.len(),
        |k: int|
            match choices[k] {
                Some(d) => seq![d],
                None => list[k].domain@,
            },
    )
}

/// Some sets from the lists fit together.
pub open spec fn stands(model: &PlacementModel, lists: Seq<Seq<(i128, i128)>>) -> bool {
    exists|family: Seq<Set<Vector>>| #[trigger] is_stable(model, family) && part(family, sets(lists))
}

/// The vector is in sets from the lists that fit together.
pub open spec fn survives(model: &PlacementModel, lists: Seq<Seq<(i128, i128)>>, k: int, d: Vector) -> bool {
    exists|family: Seq<Set<Vector>>| #[trigger]
        is_stable(model, family) && part(family, sets(lists)) && family[k].contains(d)
}

pub open spec fn survivor_test(model: &PlacementModel, lists: Seq<Seq<(i128, i128)>>, k: int) -> spec_fn(
    (i128, i128),
) -> bool {
    |d: (i128, i128)| survives(model, lists, k, corridors::vector(d))
}

/// The vectors that are left of each corridor when one after the other that fits no others
/// around a square or a cycle is dropped: those of the largest sets that fit together. Nothing
/// is left if there are none.
pub open spec fn reduction(model: &PlacementModel, choices: Seq<Option<(i128, i128)>>) -> Option<Seq<Seq<(i128, i128)>>> {
    let lists = start_lists(model.corridors@, choices);
    if placement::choices_wf(model.corridors@, choices) && stands(model, lists) {
        Some(Seq::new(lists.len(), |k: int| lists[k].filter(survivor_test(model, lists, k))))
    } else {
        None
    }
}

/// A vector for each corridor, from the lists, with which all squares and cycles close.
pub open spec fn is_selection(
    model: &PlacementModel,
    choices: Seq<Option<(i128, i128)>>,
    selection: Seq<Vector>,
) -> bool {
    &&& selection.len() == model.corridors@.len()
    &&& forall|k: int|
        0 <= k < selection.len() ==> corridors::holds(model.corridors@[k].domain@, #[trigger] selection[k])
    &&& forall|k: int|
        0 <= k < selection.len() ==> corridors::holds(start_lists(model.corridors@, choices)[k], #[trigger] selection[k])
    &&& forall|i: int|
        0 <= i < model.plaquettes@.len() ==> square_closes(selection, #[trigger] model.plaquettes@[i])
    &&& forall|i: int|
        0 <= i < model.cycles@.len() ==> cycle_closes(selection, (#[trigger] model.cycles@[i])@)
}

/// Both ways around the square lead to the same place.
pub open spec fn square_closes(selection: Seq<Vector>, square: PlaquetteConstraint) -> bool {
    corridors::plus(selection[square.top as int], selection[square.right as int]) == corridors::plus(
        selection[square.left as int],
        selection[square.bottom as int],
    )
}

/// The vectors of the terms of a cycle.
pub open spec fn term_picks(selection: Seq<Vector>, terms: Seq<(usize, i128)>) -> Seq<Vector> {
    Seq::new(terms.len(), |i: int| selection[terms[i].0 as int])
}

/// The terms of the cycle add up to zero.
pub open spec fn cycle_closes(selection: Seq<Vector>, terms: Seq<(usize, i128)>) -> bool {
    pick_sum(terms, term_picks(selection, terms), terms.len()) == (0int, 0int)
}

/// Some vectors of each corridor are left.
pub open spec fn narrowed(list: Seq<Corridor>, domains: Seq<Vec<(i128, i128)>>) -> bool {
    &&& domains.len() == list.len()
    &&& forall|k: int| 0 <= k < list.len() ==> part_of((#[trigger] domains[k])@, list[k].domain@)
}

/// The list holds some vectors, all of them from another.
pub open spec fn part_of(some: Seq<(i128, i128)>, all: Seq<(i128, i128)>) -> bool {
    &&& some.len() > 0
    &&& forall|d: Vector| #[trigger] corridors::holds(some, d) ==> corridors::holds(all, d)
    &&& corridors::short(some, 0x7f_ffff_ffff_ffff_ffff_ffff_ffff)
}

/// A vector of the partners, added to the vector, makes one of the sums.
pub open spec fn meets(d: Vector, partners: Seq<(i128, i128)>, sums: Seq<(i128, i128)>) -> bool {
    exists|j: int|
        0 <= j < partners.len() && corridors::holds(
            sums,
            corridors::plus(d, corridors::vector(#[trigger] partners[j])),
        )
}

fn has_partner(
    d: (i128, i128),
    partners: &Vec<(i128, i128)>,
    sums: &VectorSet,
    list: Ghost<Seq<(i128, i128)>>,
) -> (found: bool)
    requires
        sums.gathers(list@),
        -0x7f_ffff_ffff_ffff_ffff_ffff_ffff <= d.0 <= 0x7f_ffff_ffff_ffff_ffff_ffff_ffff,
        -0x7f_ffff_ffff_ffff_ffff_ffff_ffff <= d.1 <= 0x7f_ffff_ffff_ffff_ffff_ffff_ffff,
        corridors::short(partners@, 0x7f_ffff_ffff_ffff_ffff_ffff_ffff),
    ensures
        found == meets(corridors::vector(d), partners@, list@),
{
    let mut j: usize = 0;
    while j < partners.len()
        invariant
            sums.gathers(list@),
            -0x7f_ffff_ffff_ffff_ffff_ffff_ffff <= d.0 <= 0x7f_ffff_ffff_ffff_ffff_ffff_ffff,
            -0x7f_ffff_ffff_ffff_ffff_ffff_ffff <= d.1 <= 0x7f_ffff_ffff_ffff_ffff_ffff_ffff,
            corridors::short(partners@, 0x7f_ffff_ffff_ffff_ffff_ffff_ffff),
            j <= partners@.len(),
            forall|i: int|
                0 <= i < j ==> !corridors::holds(
                    list@,
                    corridors::plus(corridors::vector(d), corridors::vector(#[trigger] partners@[i])),
                ),
        decreases partners.len() - j,
    {
        let e: (i128, i128) = partners[j];
        assert(-0x7f_ffff_ffff_ffff_ffff_ffff_ffff <= partners@[j as int].0 <= 0x7f_ffff_ffff_ffff_ffff_ffff_ffff);
        let sum: (i128, i128) = (d.0 + e.0, d.1 + e.1);
        assert(corridors::vector(sum) == corridors::plus(
            corridors::vector(d),
            corridors::vector(partners@[j as int]),
        ));
        if sums.contains(sum) {
            return true;
        }
        j += 1;
    }
    false
}

pub open spec fn meet_test(partners: Seq<(i128, i128)>, sums: Seq<(i128, i128)>) -> spec_fn((i128, i128)) -> bool {
    |d: (i128, i128)| meets(corridors::vector(d), partners, sums)
}

/// The vectors of a list that meet the sums.
fn keep_meeting(list: &Vec<(i128, i128)>, partners: &Vec<(i128, i128)>, sums: &Vec<(i128, i128)>) -> (kept: Vec<(i128, i128)>)
    requires
        corridors::short(list@, 0x7f_ffff_ffff_ffff_ffff_ffff_ffff),
        corridors::short(partners@, 0x7f_ffff_ffff_ffff_ffff_ffff_ffff),
    ensures
        kept@ == list@.filter(meet_test(partners@, sums@)),
{
    let ghost test = meet_test(partners@, sums@);
    let set: VectorSet = VectorSet::of(sums);
    let mut kept: Vec<(i128, i128)> = Vec::new();
    let mut i: usize = 0;
    proof {
        reveal(Seq::filter);
        assert(list@.take(0) =~= Seq::<(i128, i128)>::empty());
    }
    while i < list.len()
        invariant
            set.gathers(sums@),
            test == meet_test(partners@, sums@),
            corridors::short(list@, 0x7f_ffff_ffff_ffff_ffff_ffff_ffff),
            corridors::short(partners@, 0x7f_ffff_ffff_ffff_ffff_ffff_ffff),
            i <= list@.len(),
            kept@ == list@.take(i as int).filter(test),
        decreases list.len() - i,
    {
        let d: (i128, i128) = list[i];
        assert(-0x7f_ffff_ffff_ffff_ffff_ffff_ffff <= list@[i as int].0 <= 0x7f_ffff_ffff_ffff_ffff_ffff_ffff);
        proof {
            seqs::lemma_filter_step(list@, test, i as int);
        }
        if has_partner(d, partners, &set, Ghost(sums@)) {
            kept.push(d);
        }
        i += 1;
    }
    assert(list@.take(i as int) =~= list@);
    kept
}

/// A vector meets sums of two lists if and only if it closes a square with vectors of the
/// others.
proof fn lemma_meets(
    d: Vector,
    partners: Seq<(i128, i128)>,
    a: Seq<(i128, i128)>,
    b: Seq<(i128, i128)>,
    sums: Seq<(i128, i128)>,
)
    requires
        forall|s: Vector| #[trigger] corridors::holds(sums, s) <==> corridors::is_pair_sum(a, b, s),
    ensures
        meets(d, partners, sums) ==> exists|q: Vector, x: Vector, y: Vector| #[trigger]
            closes_with(d, partners, a, b, q, x, y),
        forall|q: Vector, x: Vector, y: Vector| #[trigger]
            closes_with(d, partners, a, b, q, x, y) ==> meets(d, partners, sums),
{
    if meets(d, partners, sums) {
        let j = choose|j: int|
            0 <= j < partners.len() && corridors::holds(
                sums,
                corridors::plus(d, corridors::vector(#[trigger] partners[j])),
            );
        let q = corridors::vector(partners[j]);
        assert(corridors::is_pair_sum(a, b, corridors::plus(d, q)));
        let (i, k) = choose|i: int, k: int| #![trigger a[i], b[k]]
            0 <= i < a.len() && 0 <= k < b.len() && corridors::plus(d, q) == corridors::plus(
                corridors::vector(a[i]),
                corridors::vector(b[k]),
            );
        assert(closes_with(d, partners, a, b, q, corridors::vector(a[i]), corridors::vector(b[k])));
    }
    assert forall|q: Vector, x: Vector, y: Vector| #[trigger] closes_with(d, partners, a, b, q, x, y) implies meets(
        d,
        partners,
        sums,
    ) by {
        let j = choose|j: int| 0 <= j < partners.len() && corridors::vector(#[trigger] partners[j]) == q;
        let i = choose|i: int| 0 <= i < a.len() && corridors::vector(#[trigger] a[i]) == x;
        let k = choose|k: int| 0 <= k < b.len() && corridors::vector(#[trigger] b[k]) == y;
        assert(corridors::plus(d, corridors::vector(partners[j])) == corridors::plus(
            corridors::vector(a[i]),
            corridors::vector(b[k]),
        ));
        assert(corridors::is_pair_sum(a, b, corridors::plus(d, corridors::vector(partners[j]))));
        assert(corridors::holds(sums, corridors::plus(d, corridors::vector(partners[j]))));
    }
}

/// The vector and a partner, and vectors of two other lists, make the same sum.
spec fn closes_with(
    d: Vector,
    partners: Seq<(i128, i128)>,
    a: Seq<(i128, i128)>,
    b: Seq<(i128, i128)>,
    q: Vector,
    x: Vector,
    y: Vector,
) -> bool {
    &&& corridors::holds(partners, q)
    &&& corridors::holds(a, x)
    &&& corridors::holds(b, y)
    &&& corridors::plus(d, q) == corridors::plus(x, y)
}

/// How many vectors are left in the first `k` lists.
pub open spec fn size_total(domains: Seq<Vec<(i128, i128)>>, k: nat) -> nat
    decreases k,
{
    if k == 0 {
        0
    } else {
        size_total(domains, (k - 1) as nat) + domains[k - 1]@.len()
    }
}

proof fn lemma_size_update(domains: Seq<Vec<(i128, i128)>>, c: int, list: Vec<(i128, i128)>, k: nat)
    requires
        0 <= c < domains.len(),
        k <= domains.len(),
    ensures
        size_total(domains.update(c, list), k) + (if c < k {
            domains[c]@.len()
        } else {
            0
        }) == size_total(domains, k) + (if c < k {
            list@.len()
        } else {
            0
        }),
    decreases k,
{
    if k > 0 {
        lemma_size_update(domains, c, list, (k - 1) as nat);
    }
}

/// Replaces a list by some of its vectors.
fn replace(domains: &mut Vec<Vec<(i128, i128)>>, c: usize, list: Vec<(i128, i128)>) -> (changed: bool)
    requires
        c < old(domains)@.len(),
        list@.len() <= old(domains)@[c as int]@.len(),
        list@.len() == old(domains)@[c as int]@.len() ==> list@ == old(domains)@[c as int]@,
    ensures
        final(domains)@.len() == old(domains)@.len(),
        final(domains)@[c as int]@ == list@,
        forall|k: int| 0 <= k < old(domains)@.len() && k != c ==> final(domains)@[k] == old(domains)@[k],
        changed ==> size_total(final(domains)@, final(domains)@.len()) < size_total(
            old(domains)@,
            old(domains)@.len(),
        ),
        !changed ==> *final(domains) == *old(domains),
{
    if list.len() == domains[c].len() {
        return false;
    }
    proof {
        lemma_size_update(domains@, c as int, list, domains@.len());
    }
    domains.set(c, list);
    true
}

/// The vector, multiplied by a number.
pub open spec fn times(number: i128, d: Vector) -> Vector {
    (number * d.0, number * d.1)
}

/// The lists after the vectors around a square with which it cannot close were dropped.
pub open spec fn is_square_step(
    before: Seq<Vec<(i128, i128)>>,
    square: PlaquetteConstraint,
    after: Seq<Vec<(i128, i128)>>,
) -> bool {
    let family = sets(corridors::list_views(before));
    &&& after.len() == before.len()
    &&& forall|side: int|
        0 <= side < 4 ==> after[#[trigger] side_corridor(square, side)]@ == before[side_corridor(square, side)]@.filter(
            side_test(family, square, side),
        )
    &&& forall|k: int|
        0 <= k < before.len() && k != square.top && k != square.right && k != square.left && k != square.bottom
            ==> #[trigger] after[k] == before[k]
}

/// Part of a list is part of what that is part of.
proof fn lemma_filter_part(some: Seq<(i128, i128)>, all: Seq<(i128, i128)>, test: spec_fn((i128, i128)) -> bool)
    requires
        part_of(some, all),
    ensures
        some.filter(test).len() > 0 ==> part_of(some.filter(test), all),
        some.filter(test).len() <= some.len(),
        some.filter(test).len() == some.len() ==> some.filter(test) == some,
        forall|d: (i128, i128)| #[trigger]
            corridors::holds(some.filter(test), corridors::vector(d)) <==> corridors::holds(
                some,
                corridors::vector(d),
            ) && test(d),
{
    let kept = some.filter(test);
    seqs::lemma_filter_all(some, test);
    assert forall|d: (i128, i128)| #[trigger]
        corridors::holds(kept, corridors::vector(d)) <==> corridors::holds(some, corridors::vector(d)) && test(d) by {
        lemma_holds_contains(kept, d);
        lemma_holds_contains(some, d);
    }
    assert forall|i: int| 0 <= i < kept.len() implies -0x7f_ffff_ffff_ffff_ffff_ffff_ffff <= (#[trigger] kept[i]).0 <= 0x7f_ffff_ffff_ffff_ffff_ffff_ffff
        && -0x7f_ffff_ffff_ffff_ffff_ffff_ffff <= kept[i].1 <= 0x7f_ffff_ffff_ffff_ffff_ffff_ffff && corridors::holds(some, corridors::vector(kept[i])) by {
        assert(kept.contains(kept[i]));
        assert(some.contains(kept[i]));
        let j = choose|j: int| 0 <= j < some.len() && some[j] == kept[i];
        assert(-0x7f_ffff_ffff_ffff_ffff_ffff_ffff <= some[j].0);
        assert(corridors::vector(some[j]) == corridors::vector(kept[i]));
    }
    assert forall|d: Vector| #[trigger] corridors::holds(kept, d) implies corridors::holds(all, d) by {
        let i = choose|i: int| 0 <= i < kept.len() && corridors::vector(#[trigger] kept[i]) == d;
        assert(corridors::holds(some, corridors::vector(kept[i])));
    }
}

/// A list holds a vector of machine numbers if and only if it contains the numbers.
proof fn lemma_holds_contains(list: Seq<(i128, i128)>, d: (i128, i128))
    ensures
        corridors::holds(list, corridors::vector(d)) <==> list.contains(d),
{
    if list.contains(d) {
        let i = choose|i: int| 0 <= i < list.len() && list[i] == d;
        assert(corridors::vector(list[i]) == corridors::vector(d));
    }
    if corridors::holds(list, corridors::vector(d)) {
        let i = choose|i: int| 0 <= i < list.len() && corridors::vector(#[trigger] list[i]) == corridors::vector(d);
        assert(list[i] == d);
    }
}

/// Drops the vectors around a square with which no two ways around it lead to the same
/// place. Nothing is returned, and nothing changes, if none are left.
fn apply_plaquette(
    p: &PlacementProblem,
    list: &Vec<Corridor>,
    domains: &mut Vec<Vec<(i128, i128)>>,
    square: PlaquetteConstraint,
) -> (changed: Option<bool>)
    requires
        p.wf(),
        placement::corridors_wf(p, list@),
        placement::squares(p, list@, square),
        narrowed(list@, old(domains)@),
    ensures
        match changed {
            None => {
                &&& final(domains)@ == old(domains)@
                &&& forall|top: Vector, right: Vector, left: Vector, bottom: Vector| !#[trigger]
                    squared(sets(corridors::list_views(old(domains)@)), square, top, right, left, bottom)
            },
            Some(changed) => {
                &&& is_square_step(old(domains)@, square, final(domains)@)
                &&& narrowed(list@, final(domains)@)
                &&& changed ==> size_total(final(domains)@, list@.len()) < size_total(old(domains)@, list@.len())
                &&& !changed ==> final(domains)@ == old(domains)@
            },
        },
{
    let ghost before = domains@;
    let ghost family = sets(corridors::list_views(before));
    let ghost top = domains@[square.top as int]@;
    let ghost bottom = domains@[square.bottom as int]@;
    let ghost left = domains@[square.left as int]@;
    let ghost right = domains@[square.right as int]@;
    proof {
        assert(part_of(domains@[square.top as int]@, list@[square.top as int].domain@));
        assert(part_of(domains@[square.bottom as int]@, list@[square.bottom as int].domain@));
        assert(part_of(domains@[square.left as int]@, list@[square.left as int].domain@));
        assert(part_of(domains@[square.right as int]@, list@[square.right as int].domain@));
    }
    let one: Vec<(i128, i128)> = extend_sums(&domains[square.top], &domains[square.right], 0x7f_ffff_ffff_ffff_ffff_ffff_ffff, 0x7f_ffff_ffff_ffff_ffff_ffff_ffff);
    let other: Vec<(i128, i128)> = extend_sums(
        &domains[square.left],
        &domains[square.bottom],
        0x7f_ffff_ffff_ffff_ffff_ffff_ffff,
        0x7f_ffff_ffff_ffff_ffff_ffff_ffff,
    );
    let tops: Vec<(i128, i128)> = keep_meeting(&domains[square.top], &domains[square.right], &other);
    let rights: Vec<(i128, i128)> = keep_meeting(&domains[square.right], &domains[square.top], &other);
    let lefts: Vec<(i128, i128)> = keep_meeting(&domains[square.left], &domains[square.bottom], &one);
    let bottoms: Vec<(i128, i128)> = keep_meeting(&domains[square.bottom], &domains[square.left], &one);
    proof {
        lemma_top_kept(before, square, other@);
        lemma_right_kept(before, square, other@);
        lemma_left_kept(before, square, one@);
        lemma_bottom_kept(before, square, one@);
        lemma_filter_part(top, list@[square.top as int].domain@, side_test(family, square, 0));
        lemma_filter_part(right, list@[square.right as int].domain@, side_test(family, square, 1));
        lemma_filter_part(left, list@[square.left as int].domain@, side_test(family, square, 2));
        lemma_filter_part(bottom, list@[square.bottom as int].domain@, side_test(family, square, 3));
    }
    if tops.len() == 0 || rights.len() == 0 || lefts.len() == 0 || bottoms.len() == 0 {
        proof {
            assert forall|a: Vector, b: Vector, c: Vector, d: Vector| !#[trigger]
                squared(family, square, a, b, c, d) by {
                if squared(family, square, a, b, c, d) {
                    lemma_squared_kept(before, square, a, b, c, d, tops@, rights@, lefts@, bottoms@);
                }
            }
        }
        return None;
    }
    let first: bool = replace(domains, square.top, tops);
    let second: bool = replace(domains, square.right, rights);
    let third: bool = replace(domains, square.left, lefts);
    let fourth: bool = replace(domains, square.bottom, bottoms);
    proof {
        assert forall|k: int| 0 <= k < list@.len() implies part_of((#[trigger] domains@[k])@, list@[k].domain@) by {
            assert(part_of(before[k]@, list@[k].domain@));
        }
    }
    Some(first || second || third || fourth)
}

/// What is kept at each side of a square.
proof fn lemma_top_kept(before: Seq<Vec<(i128, i128)>>, square: PlaquetteConstraint, sums: Seq<(i128, i128)>)
    requires
        square.top < before.len(),
        square.right < before.len(),
        square.left < before.len(),
        square.bottom < before.len(),
        forall|s: Vector| #[trigger]
            corridors::holds(sums, s) <==> corridors::is_pair_sum(
                before[square.left as int]@,
                before[square.bottom as int]@,
                s,
            ),
    ensures
        before[square.top as int]@.filter(meet_test(before[square.right as int]@, sums))
            == before[square.top as int]@.filter(
            side_test(sets(corridors::list_views(before)), square, 0),
        ),
{
    let family = sets(corridors::list_views(before));
    let list = before[square.top as int]@;
    let partners = before[square.right as int]@;
    let first = before[square.left as int]@;
    let second = before[square.bottom as int]@;
    assert forall|i: int| 0 <= i < list.len() implies (meet_test(partners, sums)(#[trigger] list[i]) <==> side_test(
        family,
        square,
        0,
    )(list[i])) by {
        let d = corridors::vector(list[i]);
        assert(corridors::holds(list, d));
        lemma_meets(d, partners, first, second, sums);
        if meets(d, partners, sums) {
            let (q, x, y) = choose|q: Vector, x: Vector, y: Vector| #[trigger]
                closes_with(d, partners, first, second, q, x, y);
            assert(squared(family, square, d, q, x, y));
        }
        if supports_side(family, square, 0, d) {
            let (a, b, c, e) = choose|a: Vector, b: Vector, c: Vector, e: Vector| #[trigger]
                squared(family, square, a, b, c, e) && side_vector(0, a, b, c, e) == d;
            assert(closes_with(d, partners, first, second, b, c, e));
        }
    }
    seqs::lemma_filter_same(list, meet_test(partners, sums), side_test(family, square, 0));
}

proof fn lemma_right_kept(before: Seq<Vec<(i128, i128)>>, square: PlaquetteConstraint, sums: Seq<(i128, i128)>)
    requires
        square.top < before.len(),
        square.right < before.len(),
        square.left < before.len(),
        square.bottom < before.len(),
        forall|s: Vector| #[trigger]
            corridors::holds(sums, s) <==> corridors::is_pair_sum(
                before[square.left as int]@,
                before[square.bottom as int]@,
                s,
            ),
    ensures
        before[square.right as int]@.filter(meet_test(before[square.top as int]@, sums))
            == before[square.right as int]@.filter(
            side_test(sets(corridors::list_views(before)), square, 1),
        ),
{
    let family = sets(corridors::list_views(before));
    let list = before[square.right as int]@;
    let partners = before[square.top as int]@;
    let first = before[square.left as int]@;
    let second = before[square.bottom as int]@;
    assert forall|i: int| 0 <= i < list.len() implies (meet_test(partners, sums)(#[trigger] list[i]) <==> side_test(
        family,
        square,
        1,
    )(list[i])) by {
        let d = corridors::vector(list[i]);
        assert(corridors::holds(list, d));
        lemma_meets(d, partners, first, second, sums);
        if meets(d, partners, sums) {
            let (q, x, y) = choose|q: Vector, x: Vector, y: Vector| #[trigger]
                closes_with(d, partners, first, second, q, x, y);
            assert(squared(family, square, q, d, x, y));
        }
        if supports_side(family, square, 1, d) {
            let (a, b, c, e) = choose|a: Vector, b: Vector, c: Vector, e: Vector| #[trigger]
                squared(family, square, a, b, c, e) && side_vector(1, a, b, c, e) == d;
            assert(closes_with(d, partners, first, second, a, c, e));
        }
    }
    seqs::lemma_filter_same(list, meet_test(partners, sums), side_test(family, square, 1));
}

proof fn lemma_left_kept(before: Seq<Vec<(i128, i128)>>, square: PlaquetteConstraint, sums: Seq<(i128, i128)>)
    requires
        square.top < before.len(),
        square.right < before.len(),
        square.left < before.len(),
        square.bottom < before.len(),
        forall|s: Vector| #[trigger]
            corridors::holds(sums, s) <==> corridors::is_pair_sum(
                before[square.top as int]@,
                before[square.right as int]@,
                s,
            ),
    ensures
        before[square.left as int]@.filter(meet_test(before[square.bottom as int]@, sums))
            == before[square.left as int]@.filter(
            side_test(sets(corridors::list_views(before)), square, 2),
        ),
{
    let family = sets(corridors::list_views(before));
    let list = before[square.left as int]@;
    let partners = before[square.bottom as int]@;
    let first = before[square.top as int]@;
    let second = before[square.right as int]@;
    assert forall|i: int| 0 <= i < list.len() implies (meet_test(partners, sums)(#[trigger] list[i]) <==> side_test(
        family,
        square,
        2,
    )(list[i])) by {
        let d = corridors::vector(list[i]);
        assert(corridors::holds(list, d));
        lemma_meets(d, partners, first, second, sums);
        if meets(d, partners, sums) {
            let (q, x, y) = choose|q: Vector, x: Vector, y: Vector| #[trigger]
                closes_with(d, partners, first, second, q, x, y);
            assert(squared(family, square, x, y, d, q));
        }
        if supports_side(family, square, 2, d) {
            let (a, b, c, e) = choose|a: Vector, b: Vector, c: Vector, e: Vector| #[trigger]
                squared(family, square, a, b, c, e) && side_vector(2, a, b, c, e) == d;
            assert(closes_with(d, partners, first, second, e, a, b));
        }
    }
    seqs::lemma_filter_same(list, meet_test(partners, sums), side_test(family, square, 2));
}

proof fn lemma_bottom_kept(before: Seq<Vec<(i128, i128)>>, square: PlaquetteConstraint, sums: Seq<(i128, i128)>)
    requires
        square.top < before.len(),
        square.right < before.len(),
        square.left < before.len(),
        square.bottom < before.len(),
        forall|s: Vector| #[trigger]
            corridors::holds(sums, s) <==> corridors::is_pair_sum(
                before[square.top as int]@,
                before[square.right as int]@,
                s,
            ),
    ensures
        before[square.bottom as int]@.filter(meet_test(before[square.left as int]@, sums))
            == before[square.bottom as int]@.filter(
            side_test(sets(corridors::list_views(before)), square, 3),
        ),
{
    let family = sets(corridors::list_views(before));
    let list = before[square.bottom as int]@;
    let partners = before[square.left as int]@;
    let first = before[square.top as int]@;
    let second = before[square.right as int]@;
    assert forall|i: int| 0 <= i < list.len() implies (meet_test(partners, sums)(#[trigger] list[i]) <==> side_test(
        family,
        square,
        3,
    )(list[i])) by {
        let d = corridors::vector(list[i]);
        assert(corridors::holds(list, d));
        lemma_meets(d, partners, first, second, sums);
        if meets(d, partners, sums) {
            let (q, x, y) = choose|q: Vector, x: Vector, y: Vector| #[trigger]
                closes_with(d, partners, first, second, q, x, y);
            assert(squared(family, square, x, y, q, d));
        }
        if supports_side(family, square, 3, d) {
            let (a, b, c, e) = choose|a: Vector, b: Vector, c: Vector, e: Vector| #[trigger]
                squared(family, square, a, b, c, e) && side_vector(3, a, b, c, e) == d;
            assert(closes_with(d, partners, first, second, c, a, b));
        }
    }
    seqs::lemma_filter_same(list, meet_test(partners, sums), side_test(family, square, 3));
}

/// Vectors with which a square closes are kept at each of its sides.
proof fn lemma_squared_kept(
    before: Seq<Vec<(i128, i128)>>,
    square: PlaquetteConstraint,
    a: Vector,
    b: Vector,
    c: Vector,
    d: Vector,
    tops: Seq<(i128, i128)>,
    rights: Seq<(i128, i128)>,
    lefts: Seq<(i128, i128)>,
    bottoms: Seq<(i128, i128)>,
)
    requires
        square.top < before.len(),
        square.right < before.len(),
        square.left < before.len(),
        square.bottom < before.len(),
        ({
            let family = sets(corridors::list_views(before));
            &&& squared(family, square, a, b, c, d)
            &&& tops == before[square.top as int]@.filter(side_test(family, square, 0))
            &&& rights == before[square.right as int]@.filter(side_test(family, square, 1))
            &&& lefts == before[square.left as int]@.filter(side_test(family, square, 2))
            &&& bottoms == before[square.bottom as int]@.filter(side_test(family, square, 3))
        }),
    ensures
        tops.len() > 0,
        rights.len() > 0,
        lefts.len() > 0,
        bottoms.len() > 0,
{
    let family = sets(corridors::list_views(before));
    assert(side_vector(0, a, b, c, d) == a && side_vector(1, a, b, c, d) == b && side_vector(2, a, b, c, d) == c
        && side_vector(3, a, b, c, d) == d);
    lemma_kept_some(before[square.top as int]@, a, side_test(family, square, 0));
    lemma_kept_some(before[square.right as int]@, b, side_test(family, square, 1));
    lemma_kept_some(before[square.left as int]@, c, side_test(family, square, 2));
    lemma_kept_some(before[square.bottom as int]@, d, side_test(family, square, 3));
}

/// A vector of the list that passes the test is kept.
proof fn lemma_kept_some(list: Seq<(i128, i128)>, d: Vector, test: spec_fn((i128, i128)) -> bool)
    requires
        corridors::holds(list, d),
        forall|e: (i128, i128)| corridors::vector(e) == d ==> #[trigger] test(e),
    ensures
        corridors::holds(list.filter(test), d),
        list.filter(test).len() > 0,
{
    let i = choose|i: int| 0 <= i < list.len() && corridors::vector(#[trigger] list[i]) == d;
    seqs::lemma_filter_all(list, test);
    assert(list.contains(list[i]));
    assert(test(list[i]));
    assert(list.filter(test).contains(list[i]));
    lemma_holds_contains(list.filter(test), list[i]);
}

/// The vectors of a list, multiplied by a number.
pub open spec fn are_multiples(number: i128, list: Seq<(i128, i128)>, multiples: Seq<(i128, i128)>) -> bool {
    &&& multiples.len() == list.len()
    &&& forall|i: int|
        0 <= i < list.len() ==> corridors::vector(#[trigger] multiples[i]) == times(
            number,
            corridors::vector(list[i]),
        )
}

/// The vectors of a list, multiplied by a small number.
fn multiply(number: i128, list: &Vec<(i128, i128)>, size: Ghost<int>) -> (multiples: Vec<(i128, i128)>)
    requires
        -3 <= number <= 3,
        0 <= size@ <= 0xf_ffff_ffff_ffff_ffff_ffff_ffff,
        corridors::short(list@, size@),
    ensures
        are_multiples(number, list@, multiples@),
        corridors::short(multiples@, 3 * size@),
{
    let mut multiples: Vec<(i128, i128)> = Vec::new();
    let mut i: usize = 0;
    while i < list.len()
        invariant
            -3 <= number <= 3,
            0 <= size@ <= 0xf_ffff_ffff_ffff_ffff_ffff_ffff,
            corridors::short(list@, size@),
            i <= list@.len(),
            multiples@.len() == i,
            forall|j: int|
                0 <= j < i ==> corridors::vector(#[trigger] multiples@[j]) == times(
                    number,
                    corridors::vector(list@[j]),
                ),
            corridors::short(multiples@, 3 * size@),
        decreases list.len() - i,
    {
        let d: (i128, i128) = list[i];
        assert(-size@ <= list@[i as int].0 <= size@);
        proof {
            lemma_small_multiple(number as int, d.0 as int, size@);
            lemma_small_multiple(number as int, d.1 as int, size@);
        }
        multiples.push((number * d.0, number * d.1));
        i += 1;
    }
    multiples
}

proof fn lemma_small_multiple(number: int, x: int, size: int)
    requires
        -3 <= number <= 3,
        -size <= x <= size,
    ensures
        -(3 * size) <= number * x <= 3 * size,
{
    assert(-(3 * size) <= number * x <= 3 * size) by (nonlinear_arith)
        requires
            -3 <= number <= 3,
            -size <= x <= size,
    ;
}

/// The lists of the terms of a cycle, multiplied by their numbers.
pub open spec fn are_term_lists(
    domains: Seq<Vec<(i128, i128)>>,
    terms: Seq<(usize, i128)>,
    lists: Seq<Seq<(i128, i128)>>,
    k: int,
) -> bool {
    forall|i: int|
        0 <= i < k ==> are_multiples((#[trigger] terms[i]).1, domains[terms[i].0 as int]@, lists[i])
}

/// A sum of vectors of the terms before, the vector, and a sum of vectors of the terms after
/// it add up to zero.
pub open spec fn balances(lists: Seq<Seq<(i128, i128)>>, i: int, d: Vector) -> bool {
    exists|s: Vector| #[trigger]
        corridors::is_sum(lists, i as nat, s) && corridors::is_rest(
            lists,
            (i + 1) as nat,
            (-s.0 - d.0, -s.1 - d.1),
        )
}

proof fn lemma_pick_prefix(terms: Seq<(usize, i128)>, a: Seq<Vector>, b: Seq<Vector>, k: nat)
    requires
        k <= a.len(),
        k <= b.len(),
        forall|i: int| 0 <= i < k ==> a[i] == b[i],
    ensures
        pick_sum(terms, a, k) == pick_sum(terms, b, k),
    decreases k,
{
    if k > 0 {
        lemma_pick_prefix(terms, a, b, (k - 1) as nat);
        assert(a[k - 1] == b[k - 1]);
    }
}

/// One more vector.
proof fn lemma_pick_push(family: Seq<Set<Vector>>, terms: Seq<(usize, i128)>, picks: Seq<Vector>, d: Vector)
    requires
        picks.len() < terms.len(),
        picked(family, terms, picks, picks.len()),
        family[terms[picks.len() as int].0 as int].contains(d),
    ensures
        picked(family, terms, picks.push(d), picks.len() + 1),
        pick_sum(terms, picks.push(d), picks.len() + 1) == corridors::plus(
            pick_sum(terms, picks, picks.len()),
            times(terms[picks.len() as int].1, d),
        ),
{
    let more = picks.push(d);
    lemma_pick_prefix(terms, more, picks, picks.len());
    assert forall|i: int| 0 <= i < more.len() implies family[terms[i].0 as int].contains(#[trigger] more[i]) by {
        if i < picks.len() {
            assert(more[i] == picks[i]);
        }
    }
}

/// What a cycle works with: the lists of its terms, multiplied by their numbers.
spec fn cycle_lists(
    domains: Seq<Vec<(i128, i128)>>,
    terms: Seq<(usize, i128)>,
    lists: Seq<Seq<(i128, i128)>>,
) -> bool {
    &&& lists.len() == terms.len()
    &&& are_term_lists(domains, terms, lists, terms.len() as int)
    &&& forall|i: int| 0 <= i < terms.len() ==> (#[trigger] terms[i]).0 < domains.len()
}

/// A sum of the first lists comes from vectors of the first terms.
proof fn lemma_sum_picks(
    domains: Seq<Vec<(i128, i128)>>,
    terms: Seq<(usize, i128)>,
    lists: Seq<Seq<(i128, i128)>>,
    k: nat,
    s: Vector,
) -> (picks: Seq<Vector>)
    requires
        cycle_lists(domains, terms, lists),
        k <= terms.len(),
        corridors::is_sum(lists, k, s),
    ensures
        picked(sets(corridors::list_views(domains)), terms, picks, k),
        pick_sum(terms, picks, k) == s,
    decreases k,
{
    if k == 0 {
        Seq::empty()
    } else {
        let family = sets(corridors::list_views(domains));
        let i = choose|i: int|
            0 <= i < lists[k - 1].len() && corridors::is_sum(
                lists,
                (k - 1) as nat,
                corridors::minus(s, corridors::vector(#[trigger] lists[k - 1][i])),
            );
        let m = corridors::vector(lists[k - 1][i]);
        let picks = lemma_sum_picks(domains, terms, lists, (k - 1) as nat, corridors::minus(s, m));
        let c = terms[k - 1].0 as int;
        assert(are_multiples(terms[k - 1].1, domains[c]@, lists[k - 1]));
        let d = corridors::vector(domains[c]@[i]);
        assert(corridors::holds(domains[c]@, d));
        assert(terms[k - 1].0 < domains.len());
        assert(family[c].contains(d));
        lemma_pick_push(family, terms, picks, d);
        assert(m == times(terms[k - 1].1, d));
        picks.push(d)
    }
}

/// Vectors of the first terms, and a sum of the other lists, come from vectors of all terms.
proof fn lemma_rest_picks(
    domains: Seq<Vec<(i128, i128)>>,
    terms: Seq<(usize, i128)>,
    lists: Seq<Seq<(i128, i128)>>,
    first: Seq<Vector>,
    s: Vector,
) -> (picks: Seq<Vector>)
    requires
        cycle_lists(domains, terms, lists),
        first.len() <= terms.len(),
        picked(sets(corridors::list_views(domains)), terms, first, first.len()),
        corridors::is_rest(lists, first.len(), s),
    ensures
        picked(sets(corridors::list_views(domains)), terms, picks, terms.len()),
        pick_sum(terms, picks, terms.len()) == corridors::plus(pick_sum(terms, first, first.len()), s),
        forall|i: int| 0 <= i < first.len() ==> picks[i] == #[trigger] first[i],
    decreases terms.len() - first.len(),
{
    let k = first.len();
    if k >= terms.len() {
        first
    } else {
        let family = sets(corridors::list_views(domains));
        let i = choose|i: int|
            0 <= i < lists[k as int].len() && corridors::is_rest(
                lists,
                k + 1,
                corridors::minus(s, corridors::vector(#[trigger] lists[k as int][i])),
            );
        let m = corridors::vector(lists[k as int][i]);
        let c = terms[k as int].0 as int;
        assert(are_multiples(terms[k as int].1, domains[c]@, lists[k as int]));
        let d = corridors::vector(domains[c]@[i]);
        assert(corridors::holds(domains[c]@, d));
        assert(terms[k as int].0 < domains.len());
        assert(family[c].contains(d));
        lemma_pick_push(family, terms, first, d);
        let more = first.push(d);
        let picks = lemma_rest_picks(domains, terms, lists, more, corridors::minus(s, m));
        assert forall|j: int| 0 <= j < first.len() implies picks[j] == #[trigger] first[j] by {
            assert(picks[j] == more[j]);
        }
        picks
    }
}

/// Vectors of the first terms make a sum of the first lists.
proof fn lemma_picks_sum(
    domains: Seq<Vec<(i128, i128)>>,
    terms: Seq<(usize, i128)>,
    lists: Seq<Seq<(i128, i128)>>,
    picks: Seq<Vector>,
    k: nat,
)
    requires
        cycle_lists(domains, terms, lists),
        picked(sets(corridors::list_views(domains)), terms, picks, terms.len()),
        k <= terms.len(),
    ensures
        corridors::is_sum(lists, k, pick_sum(terms, picks, k)),
    decreases k,
{
    if k > 0 {
        lemma_picks_sum(domains, terms, lists, picks, (k - 1) as nat);
        let c = terms[k - 1].0 as int;
        let d = picks[k - 1];
        assert(sets(corridors::list_views(domains))[c].contains(d));
        assert(terms[k - 1].0 < domains.len());
        let i = choose|i: int| 0 <= i < domains[c]@.len() && corridors::vector(#[trigger] domains[c]@[i]) == d;
        assert(are_multiples(terms[k - 1].1, domains[c]@, lists[k - 1]));
        assert(corridors::vector(lists[k - 1][i]) == times(terms[k - 1].1, d));
        assert(corridors::minus(pick_sum(terms, picks, k), corridors::vector(lists[k - 1][i])) == pick_sum(
            terms,
            picks,
            (k - 1) as nat,
        ));
    }
}

/// Vectors of the other terms make a sum of the other lists.
proof fn lemma_picks_rest(
    domains: Seq<Vec<(i128, i128)>>,
    terms: Seq<(usize, i128)>,
    lists: Seq<Seq<(i128, i128)>>,
    picks: Seq<Vector>,
    k: nat,
)
    requires
        cycle_lists(domains, terms, lists),
        picked(sets(corridors::list_views(domains)), terms, picks, terms.len()),
        k <= terms.len(),
    ensures
        corridors::is_rest(
            lists,
            k,
            corridors::minus(pick_sum(terms, picks, terms.len()), pick_sum(terms, picks, k)),
        ),
    decreases terms.len() - k,
{
    if k < terms.len() {
        lemma_picks_rest(domains, terms, lists, picks, k + 1);
        let c = terms[k as int].0 as int;
        let d = picks[k as int];
        assert(sets(corridors::list_views(domains))[c].contains(d));
        assert(terms[k as int].0 < domains.len());
        let i = choose|i: int| 0 <= i < domains[c]@.len() && corridors::vector(#[trigger] domains[c]@[i]) == d;
        assert(are_multiples(terms[k as int].1, domains[c]@, lists[k as int]));
        assert(corridors::vector(lists[k as int][i]) == times(terms[k as int].1, d));
        let whole = pick_sum(terms, picks, terms.len());
        assert(corridors::minus(
            corridors::minus(whole, pick_sum(terms, picks, k)),
            corridors::vector(lists[k as int][i]),
        ) == corridors::minus(whole, pick_sum(terms, picks, k + 1)));
    }
}

/// A vector of a term balances the others if and only if vectors of them complete it to zero.
proof fn lemma_balances(
    domains: Seq<Vec<(i128, i128)>>,
    terms: Seq<(usize, i128)>,
    lists: Seq<Seq<(i128, i128)>>,
    i: int,
    d: Vector,
)
    requires
        cycle_lists(domains, terms, lists),
        0 <= i < terms.len(),
        corridors::holds(domains[terms[i].0 as int]@, d),
    ensures
        balances(lists, i, times(terms[i].1, d)) <==> supports_term(
            sets(corridors::list_views(domains)),
            terms,
            i,
            d,
        ),
{
    let family = sets(corridors::list_views(domains));
    let m = times(terms[i].1, d);
    assert(terms[i].0 < domains.len());
    if balances(lists, i, m) {
        let s = choose|s: Vector| #[trigger]
            corridors::is_sum(lists, i as nat, s) && corridors::is_rest(
                lists,
                (i + 1) as nat,
                (-s.0 - m.0, -s.1 - m.1),
            );
        let first = lemma_sum_picks(domains, terms, lists, i as nat, s);
        assert(family[terms[i].0 as int].contains(d));
        lemma_pick_push(family, terms, first, d);
        let more = first.push(d);
        let picks = lemma_rest_picks(domains, terms, lists, more, (-s.0 - m.0, -s.1 - m.1));
        assert(picks[i] == more[i]);
        assert(balanced(family, terms, picks));
    }
    if supports_term(family, terms, i, d) {
        let picks = choose|picks: Seq<Vector>| #[trigger] balanced(family, terms, picks) && picks[i] == d;
        lemma_picks_sum(domains, terms, lists, picks, i as nat);
        lemma_picks_rest(domains, terms, lists, picks, (i + 1) as nat);
        let s = pick_sum(terms, picks, i as nat);
        assert(pick_sum(terms, picks, (i + 1) as nat) == corridors::plus(s, m));
        assert(corridors::minus((0int, 0int), corridors::plus(s, m)) == (-s.0 - m.0, -s.1 - m.1));
        assert(corridors::is_sum(lists, i as nat, s));
    }
}

/// Whether the rest that a vector leaves to one of the sums is among the others.
fn leaves_rest(
    d: (i128, i128),
    sums: &Vec<(i128, i128)>,
    others: &VectorSet,
    list: Ghost<Seq<(i128, i128)>>,
) -> (found: bool)
    requires
        others.gathers(list@),
        corridors::short(sums@, 0x1f_ffff_ffff_ffff_ffff_ffff_ffff_ffff),
        -0x1f_ffff_ffff_ffff_ffff_ffff_ffff_ffff <= d.0 <= 0x1f_ffff_ffff_ffff_ffff_ffff_ffff_ffff,
        -0x1f_ffff_ffff_ffff_ffff_ffff_ffff_ffff <= d.1 <= 0x1f_ffff_ffff_ffff_ffff_ffff_ffff_ffff,
    ensures
        found == exists|s: Vector| #[trigger]
            corridors::holds(sums@, s) && corridors::holds(list@, (-s.0 - d.0, -s.1 - d.1)),
{
    let mut i: usize = 0;
    while i < sums.len()
        invariant
            others.gathers(list@),
            corridors::short(sums@, 0x1f_ffff_ffff_ffff_ffff_ffff_ffff_ffff),
            -0x1f_ffff_ffff_ffff_ffff_ffff_ffff_ffff <= d.0 <= 0x1f_ffff_ffff_ffff_ffff_ffff_ffff_ffff,
            -0x1f_ffff_ffff_ffff_ffff_ffff_ffff_ffff <= d.1 <= 0x1f_ffff_ffff_ffff_ffff_ffff_ffff_ffff,
            i <= sums@.len(),
            forall|j: int|
                0 <= j < i ==> !corridors::holds(list@, (-(#[trigger] sums@[j]).0 - d.0, -sums@[j].1 - d.1)),
        decreases sums.len() - i,
    {
        let s: (i128, i128) = sums[i];
        assert(-0x1f_ffff_ffff_ffff_ffff_ffff_ffff_ffff <= sums@[i as int].0 <= 0x1f_ffff_ffff_ffff_ffff_ffff_ffff_ffff);
        let rest: (i128, i128) = (-s.0 - d.0, -s.1 - d.1);
        if others.contains(rest) {
            proof {
                assert(corridors::vector(sums@[i as int]) == corridors::vector(s));
                assert(corridors::holds(sums@, corridors::vector(s)));
            }
            return true;
        }
        i += 1;
    }
    proof {
        assert forall|s: Vector| #[trigger] corridors::holds(sums@, s) implies !corridors::holds(
            list@,
            (-s.0 - d.0, -s.1 - d.1),
        ) by {
            let j = choose|j: int| 0 <= j < sums@.len() && corridors::vector(#[trigger] sums@[j]) == s;
            assert(!corridors::holds(list@, (-sums@[j].0 - d.0, -sums@[j].1 - d.1)));
        }
    }
    false
}

/// The vectors of a term with which the terms of the cycle can add up to zero.
fn keep_balanced(
    domain: &Vec<(i128, i128)>,
    multiples: &Vec<(i128, i128)>,
    sums: &Vec<(i128, i128)>,
    others: &Vec<(i128, i128)>,
    lists: Ghost<Seq<Seq<(i128, i128)>>>,
    idx: Ghost<int>,
    test: Ghost<spec_fn((i128, i128)) -> bool>,
) -> (kept: Vec<(i128, i128)>)
    requires
        multiples@.len() == domain@.len(),
        corridors::short(multiples@, 0x1f_ffff_ffff_ffff_ffff_ffff_ffff_ffff),
        corridors::short(sums@, 0x1f_ffff_ffff_ffff_ffff_ffff_ffff_ffff),
        forall|s: Vector| #[trigger] corridors::holds(sums@, s) <==> corridors::is_sum(lists@, idx@ as nat, s),
        forall|s: Vector| #[trigger] corridors::holds(others@, s) <==> corridors::is_rest(lists@, (idx@ + 1) as nat, s),
        0 <= idx@,
        forall|i: int|
            0 <= i < domain@.len() ==> (test@(#[trigger] domain@[i]) <==> balances(
                lists@,
                idx@,
                corridors::vector(multiples@[i]),
            )),
    ensures
        kept@ == domain@.filter(test@),
{
    let set: VectorSet = VectorSet::of(others);
    let mut kept: Vec<(i128, i128)> = Vec::new();
    let mut i: usize = 0;
    proof {
        reveal(Seq::filter);
        assert(domain@.take(0) =~= Seq::<(i128, i128)>::empty());
    }
    while i < domain.len()
        invariant
            set.gathers(others@),
            multiples@.len() == domain@.len(),
            corridors::short(multiples@, 0x1f_ffff_ffff_ffff_ffff_ffff_ffff_ffff),
            corridors::short(sums@, 0x1f_ffff_ffff_ffff_ffff_ffff_ffff_ffff),
            forall|s: Vector| #[trigger] corridors::holds(sums@, s) <==> corridors::is_sum(lists@, idx@ as nat, s),
            forall|s: Vector| #[trigger]
                corridors::holds(others@, s) <==> corridors::is_rest(lists@, (idx@ + 1) as nat, s),
            forall|i: int|
                0 <= i < domain@.len() ==> (test@(#[trigger] domain@[i]) <==> balances(
                    lists@,
                    idx@,
                    corridors::vector(multiples@[i]),
                )),
            i <= domain@.len(),
            kept@ == domain@.take(i as int).filter(test@),
        decreases domain.len() - i,
    {
        assert(-0x1f_ffff_ffff_ffff_ffff_ffff_ffff_ffff <= multiples@[i as int].0 <= 0x1f_ffff_ffff_ffff_ffff_ffff_ffff_ffff);
        let m: (i128, i128) = multiples[i];
        let stays: bool = leaves_rest(m, sums, &set, Ghost(others@));
        proof {
            let d = corridors::vector(m);
            if stays {
                let s = choose|s: Vector| #[trigger]
                    corridors::holds(sums@, s) && corridors::holds(others@, (-s.0 - m.0, -s.1 - m.1));
                assert(corridors::is_sum(lists@, idx@ as nat, s));
            }
            if balances(lists@, idx@, d) {
                let s = choose|s: Vector| #[trigger]
                    corridors::is_sum(lists@, idx@ as nat, s) && corridors::is_rest(
                        lists@,
                        (idx@ + 1) as nat,
                        (-s.0 - d.0, -s.1 - d.1),
                    );
                assert(corridors::holds(sums@, s));
                assert(corridors::holds(others@, (-s.0 - m.0, -s.1 - m.1)));
            }
            assert(stays == test@(domain@[i as int]));
            seqs::lemma_filter_step(domain@, test@, i as int);
        }
        if stays {
            kept.push(domain[i]);
        }
        i += 1;
    }
    assert(domain@.take(i as int) =~= domain@);
    kept
}

/// How many links the corridors of the first `k` terms have.
pub open spec fn term_width(list: Seq<Corridor>, terms: Seq<(usize, i128)>, k: nat) -> int
    decreases k,
{
    if k == 0 {
        0
    } else {
        term_width(list, terms, (k - 1) as nat) + (list[terms[k - 1].0 as int].last - list[terms[k - 1].0 as int].first)
    }
}

/// How many links those of them have that are among the first `n` corridors.
spec fn width_within(list: Seq<Corridor>, terms: Seq<(usize, i128)>, k: nat, n: int) -> int
    decreases k,
{
    if k == 0 {
        0
    } else {
        let c = terms[k - 1].0 as int;
        width_within(list, terms, (k - 1) as nat, n) + (if c < n {
            list[c].last - list[c].first
        } else {
            0
        })
    }
}

proof fn lemma_width_next(
    p: &PlacementProblem,
    list: Seq<Corridor>,
    terms: Seq<(usize, i128)>,
    k: nat,
    n: int,
)
    requires
        placement::corridors_wf(p, list),
        placement::terms_differ(list, terms),
        k <= terms.len(),
        0 <= n < list.len(),
    ensures
        width_within(list, terms, k, n + 1) <= width_within(list, terms, k, n) + (list[n].last - list[n].first),
        (forall|i: int| 0 <= i < k ==> (#[trigger] terms[i]).0 != n) ==> width_within(list, terms, k, n + 1)
            == width_within(list, terms, k, n),
    decreases k,
{
    assert(placement::corridor_wf(p, list[n]));
    if k > 0 {
        lemma_width_next(p, list, terms, (k - 1) as nat, n);
        if terms[k - 1].0 == n {
            assert forall|i: int| 0 <= i < k - 1 implies (#[trigger] terms[i]).0 != n by {
                assert(terms[i].0 != terms[k - 1].0);
            }
        }
    }
}

proof fn lemma_width_bound(p: &PlacementProblem, list: Seq<Corridor>, terms: Seq<(usize, i128)>, k: nat, n: int)
    requires
        placement::corridors_wf(p, list),
        placement::terms_differ(list, terms),
        k <= terms.len(),
        0 <= n <= list.len(),
    ensures
        width_within(list, terms, k, n) <= (if n == 0 {
            0
        } else {
            list[n - 1].last as int
        }),
    decreases n,
{
    if n > 0 {
        lemma_width_bound(p, list, terms, k, n - 1);
        lemma_width_next(p, list, terms, k, n - 1);
        if n > 1 {
            assert(list[n - 2].last == list[n - 1].first);
        }
    } else {
        lemma_width_none(list, terms, k);
    }
}

proof fn lemma_width_none(list: Seq<Corridor>, terms: Seq<(usize, i128)>, k: nat)
    ensures
        width_within(list, terms, k, 0) == 0,
    decreases k,
{
    if k > 0 {
        lemma_width_none(list, terms, (k - 1) as nat);
    }
}

proof fn lemma_width_all(list: Seq<Corridor>, terms: Seq<(usize, i128)>, k: nat)
    requires
        placement::terms_differ(list, terms),
        k <= terms.len(),
    ensures
        width_within(list, terms, k, list.len() as int) == term_width(list, terms, k),
    decreases k,
{
    if k > 0 {
        lemma_width_all(list, terms, (k - 1) as nat);
        assert(terms[k - 1].0 < list.len());
    }
}

/// The corridors of terms have no more links than there are.
pub proof fn lemma_term_width(p: &PlacementProblem, list: Seq<Corridor>, terms: Seq<(usize, i128)>, k: nat)
    requires
        placement::corridors_wf(p, list),
        placement::terms_differ(list, terms),
        k <= terms.len(),
    ensures
        0 <= term_width(list, terms, k) <= p.links@.len(),
    decreases k,
{
    lemma_width_all(list, terms, k);
    lemma_width_bound(p, list, terms, k, list.len() as int);
    if k > 0 {
        lemma_term_width(p, list, terms, (k - 1) as nat);
        assert(terms[k - 1].0 < list.len());
        assert(placement::corridor_wf(p, list[terms[k - 1].0 as int]));
    }
}

/// How long the vectors of a term can be, multiplied by its number.
spec fn term_sizes(p: &PlacementProblem, list: Seq<Corridor>, terms: Seq<(usize, i128)>) -> Seq<int> {
    Seq::new(
        terms.len(),
        |i: int| 3 * ((list[terms[i].0 as int].last - list[terms[i].0 as int].first) * p.limit),
    )
}

proof fn lemma_sizes_total(p: &PlacementProblem, list: Seq<Corridor>, terms: Seq<(usize, i128)>, k: nat)
    requires
        k <= terms.len(),
    ensures
        corridors::seq_total(term_sizes(p, list, terms), k) == 3 * (term_width(list, terms, k) * p.limit),
    decreases k,
{
    if k > 0 {
        lemma_sizes_total(p, list, terms, (k - 1) as nat);
        let a = term_width(list, terms, (k - 1) as nat);
        let b = list[terms[k - 1].0 as int].last - list[terms[k - 1].0 as int].first;
        assert((a + b) * p.limit == a * p.limit + b * p.limit) by (nonlinear_arith);
    } else {
        assert(0 * p.limit == 0) by (nonlinear_arith);
    }
}

/// The sums of a cycle are within the range of machine numbers.
proof fn lemma_cycle_fits(p: &PlacementProblem, list: Seq<Corridor>, terms: Seq<(usize, i128)>)
    requires
        p.wf(),
        placement::corridors_wf(p, list),
        placement::terms_differ(list, terms),
    ensures
        corridors::seq_total(term_sizes(p, list, terms), terms.len()) <= 0x1f_ffff_ffff_ffff_ffff_ffff_ffff_ffff,
{
    let k = terms.len();
    lemma_sizes_total(p, list, terms, k);
    lemma_width_all(list, terms, k);
    lemma_width_bound(p, list, terms, k, list.len() as int);
    let w = term_width(list, terms, k);
    placement::lemma_limits(p);
    assert(w * p.limit <= 0x7f_ffff_ffff_ffff_ffff_ffff_ffff) by (nonlinear_arith)
        requires
            w <= 2 * p.nodes,
            p.limit >= 1,
            16 * p.nodes * p.limit <= 0x7f_ffff_ffff_ffff_ffff_ffff_ffff,
    ;
}

/// The vectors that are left of a corridor are as short as it says.
proof fn lemma_part_short(p: &PlacementProblem, c: Corridor, some: Seq<(i128, i128)>)
    requires
        placement::corridor_wf(p, c),
        part_of(some, c.domain@),
    ensures
        corridors::short(some, (c.last - c.first) * p.limit),
{
    let size = (c.last - c.first) * p.limit;
    assert forall|i: int| 0 <= i < some.len() implies -size <= (#[trigger] some[i]).0 <= size && -size <= some[i].1
        <= size by {
        assert(corridors::holds(some, corridors::vector(some[i])));
        assert(corridors::holds(c.domain@, corridors::vector(some[i])));
        let j = choose|j: int|
            0 <= j < c.domain@.len() && corridors::vector(#[trigger] c.domain@[j]) == corridors::vector(some[i]);
        assert(-size <= c.domain@[j].0 <= size);
    }
}

/// The corridor has a term.
pub open spec fn has_term(terms: Seq<(usize, i128)>, k: int) -> bool {
    exists|i: int| 0 <= i < terms.len() && (#[trigger] terms[i]).0 == k
}

/// The lists after the vectors of a cycle with which its terms cannot add up to zero were
/// dropped.
pub open spec fn is_cycle_step(
    before: Seq<Vec<(i128, i128)>>,
    terms: Seq<(usize, i128)>,
    after: Seq<Vec<(i128, i128)>>,
) -> bool {
    let family = sets(corridors::list_views(before));
    &&& after.len() == before.len()
    &&& forall|i: int|
        0 <= i < terms.len() ==> after[(#[trigger] terms[i]).0 as int]@ == before[terms[i].0 as int]@.filter(
            term_test(family, terms, i),
        )
    &&& forall|k: int| 0 <= k < before.len() && !has_term(terms, k) ==> #[trigger] after[k] == before[k]
}

/// Drops the vectors of a cycle with which its terms cannot add up to zero. Nothing is
/// returned, and nothing changes, if none are left.
fn apply_cycle_constraint(
    p: &PlacementProblem,
    list: &Vec<Corridor>,
    domains: &mut Vec<Vec<(i128, i128)>>,
    terms: &Vec<(usize, i128)>,
) -> (changed: Option<bool>)
    requires
        p.wf(),
        placement::corridors_wf(p, list@),
        placement::terms_differ(list@, terms@),
        placement::small_terms(terms@),
        narrowed(list@, old(domains)@),
    ensures
        match changed {
            None => {
                &&& terms@.len() > 0
                &&& final(domains)@ == old(domains)@
                &&& forall|picks: Seq<Vector>| !#[trigger]
                    balanced(sets(corridors::list_views(old(domains)@)), terms@, picks)
            },
            Some(changed) => {
                &&& is_cycle_step(old(domains)@, terms@, final(domains)@)
                &&& exists|picks: Seq<Vector>| #[trigger]
                    balanced(sets(corridors::list_views(old(domains)@)), terms@, picks)
                &&& narrowed(list@, final(domains)@)
                &&& changed ==> size_total(final(domains)@, list@.len()) < size_total(old(domains)@, list@.len())
                &&& !changed ==> final(domains)@ == old(domains)@
            },
        },
{
    let ghost before = domains@;
    let ghost family = sets(corridors::list_views(before));
    let ghost sizes = term_sizes(p, list@, terms@);
    let n: usize = terms.len();
    let mut lists: Vec<Vec<(i128, i128)>> = Vec::new();
    let mut i: usize = 0;
    while i < n
        invariant
            n == terms@.len(),
            i <= n,
            before == domains@,
            p.wf(),
            placement::corridors_wf(p, list@),
            placement::terms_differ(list@, terms@),
            placement::small_terms(terms@),
            narrowed(list@, before),
            sizes == term_sizes(p, list@, terms@),
            lists@.len() == i,
            are_term_lists(before, terms@, corridors::list_views(lists@), i as int),
            forall|j: int|
                0 <= j < i ==> (#[trigger] corridors::list_views(lists@)[j]).len() > 0 && 0 <= sizes[j]
                    && corridors::short(corridors::list_views(lists@)[j], sizes[j]),
        decreases n - i,
    {
        let (c, number): (usize, i128) = terms[i];
        assert(terms@[i as int].0 < list@.len());
        assert(part_of(before[c as int]@, list@[c as int].domain@));
        let ghost held = corridors::list_views(lists@);
        let ghost size = (list@[c as int].last - list@[c as int].first) * p.limit;
        proof {
            assert(placement::corridor_wf(p, list@[c as int]));
            lemma_part_short(p, list@[c as int], before[c as int]@);
            assert(0 <= size) by (nonlinear_arith)
                requires
                    size == (list@[c as int].last - list@[c as int].first) * p.limit,
                    list@[c as int].last > list@[c as int].first,
                    p.limit >= 1,
            ;
        }
        let multiples: Vec<(i128, i128)> = multiply(number, &domains[c], Ghost(size));
        lists.push(multiples);
        proof {
            let views = corridors::list_views(lists@);
            assert(views =~= held.push(multiples@));
            assert forall|j: int| 0 <= j < i + 1 implies are_multiples(
                (#[trigger] terms@[j]).1,
                before[terms@[j].0 as int]@,
                views[j],
            ) by {
                if j < i {
                    assert(views[j] == held[j]);
                }
            }
            assert forall|j: int| 0 <= j < i + 1 implies (#[trigger] views[j]).len() > 0 && 0 <= sizes[j]
                && corridors::short(views[j], sizes[j]) by {
                if j < i {
                    assert(views[j] == held[j]);
                }
            }
        }
        i += 1;
    }
    let ghost views = corridors::list_views(lists@);
    proof {
        lemma_cycle_fits(p, list@, terms@);
        assert(cycle_lists(before, terms@, views)) by {
            assert forall|i: int| 0 <= i < terms@.len() implies (#[trigger] terms@[i]).0 < before.len() by {}
        }
    }
    let suffix: Vec<Vec<(i128, i128)>> = corridor_suffix_sums(&lists, Ghost(sizes));
    let mut kept: Vec<Vec<(i128, i128)>> = Vec::new();
    let mut sums: Vec<(i128, i128)> = Vec::new();
    proof {
        corridors::lemma_holds_push(Seq::empty(), (0, 0));
    }
    sums.push((0, 0));
    let mut k: usize = 0;
    while k < n
        invariant
            n == terms@.len(),
            k <= n,
            before == domains@,
            family == sets(corridors::list_views(before)),
            placement::terms_differ(list@, terms@),
            narrowed(list@, before),
            lists@.len() == n,
            views == corridors::list_views(lists@),
            cycle_lists(before, terms@, views),
            corridors::sized(views, sizes),
            corridors::seq_total(sizes, n as nat) <= 0x1f_ffff_ffff_ffff_ffff_ffff_ffff_ffff,
            suffix@.len() == n + 1,
            forall|m: int, d: Vector|
                0 <= m <= n ==> (#[trigger] corridors::holds(suffix@[m]@, d) <==> corridors::is_rest(
                    views,
                    m as nat,
                    d,
                )),
            forall|d: Vector| #[trigger] corridors::holds(sums@, d) <==> corridors::is_sum(views, k as nat, d),
            kept@.len() == k,
            forall|j: int|
                0 <= j < k ==> (#[trigger] kept@[j])@ == before[terms@[j].0 as int]@.filter(
                    term_test(family, terms@, j),
                ) && kept@[j]@.len() > 0,
        decreases n - k,
    {
        let c: usize = terms[k].0;
        let ghost test = term_test(family, terms@, k as int);
        proof {
            assert(terms@[k as int].0 < list@.len());
            assert(are_multiples(terms@[k as int].1, before[terms@[k as int].0 as int]@, views[k as int]));
            assert(views[k as int] == lists@[k as int]@);
            corridors::lemma_sizes_grow(views, sizes, k as nat, n as nat);
            assert(sizes[k as int] <= corridors::seq_total(sizes, n as nat));
            assert(corridors::short(views[k as int], sizes[k as int]));
            corridors::lemma_short_more(lists@[k as int]@, sizes[k as int], 0x1f_ffff_ffff_ffff_ffff_ffff_ffff_ffff);
            assert forall|i: int| 0 <= i < sums@.len() implies -0x1f_ffff_ffff_ffff_ffff_ffff_ffff_ffff <= (#[trigger] sums@[i]).0
                <= 0x1f_ffff_ffff_ffff_ffff_ffff_ffff_ffff && -0x1f_ffff_ffff_ffff_ffff_ffff_ffff_ffff <= sums@[i].1 <= 0x1f_ffff_ffff_ffff_ffff_ffff_ffff_ffff by {
                assert(corridors::holds(sums@, corridors::vector(sums@[i])));
                corridors::lemma_sum_sized(views, sizes, k as nat, corridors::vector(sums@[i]));
            }
            assert forall|d: Vector| #[trigger] corridors::holds(suffix@[k + 1]@, d) <==> corridors::is_rest(
                views,
                (k + 1) as nat,
                d,
            ) by {}
            assert forall|i: int| 0 <= i < before[c as int]@.len() implies (test(#[trigger] before[c as int]@[i])
                <==> balances(views, k as int, corridors::vector(lists@[k as int]@[i]))) by {
                let d = corridors::vector(before[c as int]@[i]);
                assert(corridors::holds(before[c as int]@, d));
                lemma_balances(before, terms@, views, k as int, d);
                assert(corridors::vector(views[k as int][i]) == times(terms@[k as int].1, d));
            }
        }
        let stays: Vec<(i128, i128)> = keep_balanced(
            &domains[c],
            &lists[k],
            &sums,
            &suffix[k + 1],
            Ghost(views),
            Ghost(k as int),
            Ghost(test),
        );
        if stays.len() == 0 {
            proof {
                assert forall|picks: Seq<Vector>| !#[trigger] balanced(family, terms@, picks) by {
                    if balanced(family, terms@, picks) {
                        lemma_pick_kept(before, terms@, picks, k as int);
                    }
                }
            }
            return None;
        }
        kept.push(stays);
        let next: Vec<(i128, i128)> = extend_sums(&sums, &lists[k], 0x1f_ffff_ffff_ffff_ffff_ffff_ffff_ffff, 0x1f_ffff_ffff_ffff_ffff_ffff_ffff_ffff);
        proof {
            corridors::lemma_next_sums(views, k as nat, sums@, next@);
        }
        sums = next;
        k += 1;
    }
    proof {
        if n == 0 {
            assert(balanced(family, terms@, Seq::<Vector>::empty()));
        } else {
            assert(kept@[0]@.len() > 0);
            let c = terms@[0].0 as int;
            let test = term_test(family, terms@, 0);
            let d = kept@[0]@[0];
            seqs::lemma_filter_all(before[c]@, test);
            assert(kept@[0]@.contains(d));
            assert(supports_term(family, terms@, 0, corridors::vector(d)));
        }
    }
    let mut changed: bool = false;
    let mut j: usize = n;
    while j > 0
        invariant
            n == terms@.len(),
            j <= n,
            kept@.len() == j,
            placement::terms_differ(list@, terms@),
            narrowed(list@, before),
            before.len() == list@.len(),
            family == sets(corridors::list_views(before)),
            forall|i: int|
                0 <= i < j ==> (#[trigger] kept@[i])@ == before[terms@[i].0 as int]@.filter(
                    term_test(family, terms@, i),
                ) && kept@[i]@.len() > 0,
            narrowed(list@, domains@),
            changed ==> size_total(domains@, list@.len()) < size_total(before, list@.len()),
            !changed ==> domains@ == before,
            forall|i: int| 0 <= i < j ==> domains@[(#[trigger] terms@[i]).0 as int] == before[terms@[i].0 as int],
            forall|i: int|
                j <= i < n ==> domains@[(#[trigger] terms@[i]).0 as int]@ == before[terms@[i].0 as int]@.filter(
                    term_test(family, terms@, i),
                ),
            forall|q: int| 0 <= q < before.len() && !has_term(terms@, q) ==> #[trigger] domains@[q] == before[q],
        decreases j,
    {
        let ghost held = domains@;
        let ghost held_kept = kept@;
        let c: usize = terms[j - 1].0;
        assert(terms@[j - 1].0 < list@.len());
        match kept.pop() {
            Some(stays) => {
                assert(stays == held_kept[j - 1]);
                assert(part_of(before[c as int]@, list@[c as int].domain@));
                proof {
                    assert(held[terms@[j - 1].0 as int] == before[c as int]);
                    lemma_filter_part(before[c as int]@, list@[c as int].domain@, term_test(family, terms@, j - 1));
                    assert(has_term(terms@, c as int));
                }
                if replace(domains, c, stays) {
                    changed = true;
                }
                proof {
                    assert forall|q: int| 0 <= q < list@.len() implies part_of(
                        (#[trigger] domains@[q])@,
                        list@[q].domain@,
                    ) by {
                        assert(part_of(held[q]@, list@[q].domain@));
                    }
                    assert forall|i: int| 0 <= i < j - 1 implies domains@[(#[trigger] terms@[i]).0 as int]
                        == before[terms@[i].0 as int] by {
                        assert(terms@[i].0 != terms@[j - 1].0);
                        assert(terms@[i].0 < list@.len());
                    }
                    assert forall|i: int| j - 1 <= i < n implies domains@[(#[trigger] terms@[i]).0 as int]@
                        == before[terms@[i].0 as int]@.filter(term_test(family, terms@, i)) by {
                        if i > j - 1 {
                            assert(terms@[j - 1].0 != terms@[i].0);
                            assert(terms@[i].0 < list@.len());
                            assert(held[terms@[i].0 as int]@ == before[terms@[i].0 as int]@.filter(
                                term_test(family, terms@, i),
                            ));
                        }
                    }
                }
            },
            None => {},
        }
        j -= 1;
    }
    Some(changed)
}

/// Vectors with which the terms of a cycle add up to zero are kept.
proof fn lemma_pick_kept(before: Seq<Vec<(i128, i128)>>, terms: Seq<(usize, i128)>, picks: Seq<Vector>, i: int)
    requires
        balanced(sets(corridors::list_views(before)), terms, picks),
        0 <= i < terms.len(),
        terms[i].0 < before.len(),
    ensures
        before[terms[i].0 as int]@.filter(term_test(sets(corridors::list_views(before)), terms, i)).len() > 0,
{
    let family = sets(corridors::list_views(before));
    assert(family[terms[i].0 as int].contains(picks[i]));
    assert(supports_term(family, terms, i, picks[i]));
    lemma_kept_some(before[terms[i].0 as int]@, picks[i], term_test(family, terms, i));
}

fn start_domains(p: &PlacementProblem, list: &Vec<Corridor>, choices: &Vec<Option<(i128, i128)>>) -> (domains: Vec<
    Vec<(i128, i128)>,
>)
    requires
        p.wf(),
        placement::corridors_wf(p, list@),
        placement::choices_wf(list@, choices@),
    ensures
        corridors::list_views(domains@) == start_lists(list@, choices@),
        narrowed(list@, domains@),
{
    let mut domains: Vec<Vec<(i128, i128)>> = Vec::new();
    let mut k: usize = 0;
    while k < list.len()
        invariant
            p.wf(),
            placement::corridors_wf(p, list@),
            placement::choices_wf(list@, choices@),
            k <= list@.len(),
            domains@.len() == k,
            forall|j: int|
                0 <= j < k ==> (#[trigger] domains@[j])@ == (match choices@[j] {
                    Some(d) => seq![d],
                    None => list@[j].domain@,
                }),
            forall|j: int| 0 <= j < k ==> part_of((#[trigger] domains@[j])@, list@[j].domain@),
        decreases list.len() - k,
    {
        assert(placement::corridor_wf(p, list@[k as int]));
        let ghost domain = list@[k as int].domain@;
        proof {
            let c = list@[k as int];
            corridors::lemma_short_more(domain, (c.last - c.first) * p.limit, 0x7f_ffff_ffff_ffff_ffff_ffff_ffff);
        }
        match choices[k] {
            Some(d) => {
                let one: Vec<(i128, i128)> = vec![d];
                proof {
                    assert(choices@[k as int] == Some(d));
                    assert(corridors::holds(domain, corridors::vector(d)));
                    let i = choose|i: int|
                        0 <= i < domain.len() && corridors::vector(#[trigger] domain[i]) == corridors::vector(d);
                    assert(-0x7f_ffff_ffff_ffff_ffff_ffff_ffff <= domain[i].0 <= 0x7f_ffff_ffff_ffff_ffff_ffff_ffff);
                    assert(one@ =~= seq![d]);
                    assert forall|e: Vector| #[trigger] corridors::holds(one@, e) implies corridors::holds(
                        domain,
                        e,
                    ) by {
                        let j = choose|j: int| 0 <= j < one@.len() && corridors::vector(#[trigger] one@[j]) == e;
                        assert(one@[j] == d);
                    }
                }
                domains.push(one);
            },
            None => {
                let list_domain: &Vec<(i128, i128)> = &list[k].domain;
                let mut copy: Vec<(i128, i128)> = Vec::new();
                let mut i: usize = 0;
                while i < list_domain.len()
                    invariant
                        i <= list_domain@.len(),
                        copy@ == list_domain@.take(i as int),
                    decreases list_domain.len() - i,
                {
                    copy.push(list_domain[i]);
                    assert(list_domain@.take(i + 1) =~= list_domain@.take(i as int).push(list_domain@[i as int]));
                    i += 1;
                }
                assert(list_domain@.take(i as int) =~= list_domain@);
                domains.push(copy);
            },
        }
        k += 1;
    }
    assert(corridors::list_views(domains@) =~= start_lists(list@, choices@));
    domains
}

/// The vectors of the list that another holds.
spec fn kept_test(some: Seq<(i128, i128)>) -> spec_fn((i128, i128)) -> bool {
    |d: (i128, i128)| corridors::holds(some, corridors::vector(d))
}

/// The lists hold some of the vectors of others, in their order.
spec fn are_kept(starts: Seq<Seq<(i128, i128)>>, domains: Seq<Vec<(i128, i128)>>) -> bool {
    &&& domains.len() == starts.len()
    &&& forall|k: int| 0 <= k < starts.len() ==> starts[k].filter(kept_test((#[trigger] domains[k])@)) == domains[k]@
}

/// Every family that fits together and is part of the lists stays part of them.
spec fn keeps_stable(model: &PlacementModel, starts: Seq<Seq<(i128, i128)>>, domains: Seq<Vec<(i128, i128)>>) -> bool {
    forall|family: Seq<Set<Vector>>| #[trigger]
        is_stable(model, family) && part(family, sets(starts)) ==> part(family, sets(corridors::list_views(domains)))
}

/// A list that keeps what passes one more test.
proof fn lemma_kept_more(start: Seq<(i128, i128)>, some: Seq<(i128, i128)>, test: spec_fn((i128, i128)) -> bool)
    requires
        start.filter(kept_test(some)) == some,
    ensures
        start.filter(kept_test(some.filter(test))) == some.filter(test),
{
    let kept = some.filter(test);
    seqs::lemma_filter_all(some, test);
    assert forall|i: int| 0 <= i < start.len() implies (kept_test(kept)(#[trigger] start[i]) <==> kept_test(some)(
        start[i],
    ) && test(start[i])) by {
        lemma_holds_contains(kept, start[i]);
        lemma_holds_contains(some, start[i]);
    }
    seqs::lemma_filter_twice(start, kept_test(some), test, kept_test(kept));
}

/// What fits in some sets fits in larger ones.
proof fn lemma_side_more(
    small: Seq<Set<Vector>>,
    large: Seq<Set<Vector>>,
    square: PlaquetteConstraint,
    side: int,
    d: Vector,
)
    requires
        part(small, large),
        supports_side(small, square, side, d),
        square.top < small.len(),
        square.right < small.len(),
        square.left < small.len(),
        square.bottom < small.len(),
    ensures
        supports_side(large, square, side, d),
{
    let (a, b, c, e) = choose|a: Vector, b: Vector, c: Vector, e: Vector| #[trigger]
        squared(small, square, a, b, c, e) && side_vector(side, a, b, c, e) == d;
    assert(squared(large, square, a, b, c, e));
}

proof fn lemma_term_more(
    small: Seq<Set<Vector>>,
    large: Seq<Set<Vector>>,
    terms: Seq<(usize, i128)>,
    i: int,
    d: Vector,
)
    requires
        part(small, large),
        supports_term(small, terms, i, d),
        forall|j: int| 0 <= j < terms.len() ==> (#[trigger] terms[j]).0 < small.len(),
    ensures
        supports_term(large, terms, i, d),
{
    let picks = choose|picks: Seq<Vector>| #[trigger] balanced(small, terms, picks) && picks[i] == d;
    assert forall|j: int| 0 <= j < terms.len() implies large[terms[j].0 as int].contains(#[trigger] picks[j]) by {
        assert(small[terms[j].0 as int].contains(picks[j]));
        assert(terms[j].0 < small.len());
    }
    assert(balanced(large, terms, picks));
}

/// A square that drops vectors drops none of a family that fits together.
proof fn lemma_square_keeps(
    family: Seq<Set<Vector>>,
    before: Seq<Vec<(i128, i128)>>,
    square: PlaquetteConstraint,
    after: Seq<Vec<(i128, i128)>>,
)
    requires
        is_square_step(before, square, after),
        square.top < before.len(),
        square.right < before.len(),
        square.left < before.len(),
        square.bottom < before.len(),
        square_stable(family, square),
        part(family, sets(corridors::list_views(before))),
    ensures
        part(family, sets(corridors::list_views(after))),
{
    let large = sets(corridors::list_views(before));
    let left = sets(corridors::list_views(after));
    assert forall|k: int, d: Vector| 0 <= k < family.len() && #[trigger] family[k].contains(d) implies left[k].contains(
        d,
    ) by {
        assert(large[k].contains(d));
        let side: int = if k == square.top {
            0
        } else if k == square.right {
            1
        } else if k == square.left {
            2
        } else {
            3
        };
        if k == square.top || k == square.right || k == square.left || k == square.bottom {
            assert(side_corridor(square, side) == k);
            assert(supports_side(family, square, side, d));
            lemma_side_more(family, large, square, side, d);
            lemma_kept_some(before[k]@, d, side_test(large, square, side));
        } else {
            assert(after[k] == before[k]);
        }
    }
}

proof fn lemma_cycle_keeps(
    family: Seq<Set<Vector>>,
    before: Seq<Vec<(i128, i128)>>,
    terms: Seq<(usize, i128)>,
    after: Seq<Vec<(i128, i128)>>,
)
    requires
        is_cycle_step(before, terms, after),
        forall|j: int| 0 <= j < terms.len() ==> (#[trigger] terms[j]).0 < before.len(),
        cycle_stable(family, terms),
        part(family, sets(corridors::list_views(before))),
    ensures
        part(family, sets(corridors::list_views(after))),
{
    let large = sets(corridors::list_views(before));
    let left = sets(corridors::list_views(after));
    assert forall|k: int, d: Vector| 0 <= k < family.len() && #[trigger] family[k].contains(d) implies left[k].contains(
        d,
    ) by {
        assert(large[k].contains(d));
        if has_term(terms, k) {
            let i = choose|i: int| 0 <= i < terms.len() && (#[trigger] terms[i]).0 == k;
            assert(supports_term(family, terms, i, d));
            lemma_term_more(family, large, terms, i, d);
            lemma_kept_some(before[k]@, d, term_test(large, terms, i));
            assert(after[terms[i].0 as int]@ == before[k]@.filter(term_test(large, terms, i)));
        } else {
            assert(after[k] == before[k]);
        }
    }
}

/// The lists keep their order.
proof fn lemma_square_order(
    starts: Seq<Seq<(i128, i128)>>,
    before: Seq<Vec<(i128, i128)>>,
    square: PlaquetteConstraint,
    after: Seq<Vec<(i128, i128)>>,
)
    requires
        are_kept(starts, before),
        is_square_step(before, square, after),
    ensures
        are_kept(starts, after),
{
    let large = sets(corridors::list_views(before));
    assert forall|k: int| 0 <= k < starts.len() implies starts[k].filter(kept_test((#[trigger] after[k])@))
        == after[k]@ by {
        assert(starts[k].filter(kept_test(before[k]@)) == before[k]@);
        let side: int = if k == square.top {
            0
        } else if k == square.right {
            1
        } else if k == square.left {
            2
        } else {
            3
        };
        if k == square.top || k == square.right || k == square.left || k == square.bottom {
            assert(side_corridor(square, side) == k);
            assert(after[side_corridor(square, side)]@ == before[k]@.filter(side_test(large, square, side)));
            lemma_kept_more(starts[k], before[k]@, side_test(large, square, side));
        } else {
            assert(after[k] == before[k]);
        }
    }
}

proof fn lemma_cycle_order(
    starts: Seq<Seq<(i128, i128)>>,
    before: Seq<Vec<(i128, i128)>>,
    terms: Seq<(usize, i128)>,
    after: Seq<Vec<(i128, i128)>>,
)
    requires
        are_kept(starts, before),
        is_cycle_step(before, terms, after),
    ensures
        are_kept(starts, after),
{
    let large = sets(corridors::list_views(before));
    assert forall|k: int| 0 <= k < starts.len() implies starts[k].filter(kept_test((#[trigger] after[k])@))
        == after[k]@ by {
        assert(starts[k].filter(kept_test(before[k]@)) == before[k]@);
        if has_term(terms, k) {
            let i = choose|i: int| 0 <= i < terms.len() && (#[trigger] terms[i]).0 == k;
            assert(after[terms[i].0 as int]@ == before[k]@.filter(term_test(large, terms, i)));
            lemma_kept_more(starts[k], before[k]@, term_test(large, terms, i));
        } else {
            assert(after[k] == before[k]);
        }
    }
}

/// Lists that a square or a cycle leaves as they are fit together around it.
proof fn lemma_square_settled(before: Seq<Vec<(i128, i128)>>, square: PlaquetteConstraint)
    requires
        is_square_step(before, square, before),
        square.top < before.len(),
        square.right < before.len(),
        square.left < before.len(),
        square.bottom < before.len(),
    ensures
        square_stable(sets(corridors::list_views(before)), square),
{
    let family = sets(corridors::list_views(before));
    assert forall|side: int, d: Vector|
        0 <= side < 4 && family[side_corridor(square, side)].contains(d) implies #[trigger] supports_side(
        family,
        square,
        side,
        d,
    ) by {
        let list = before[side_corridor(square, side)]@;
        let test = side_test(family, square, side);
        assert(list == list.filter(test));
        seqs::lemma_filter_all(list, test);
        let i = choose|i: int| 0 <= i < list.len() && corridors::vector(#[trigger] list[i]) == d;
        assert(test(list[i]));
    }
}

proof fn lemma_cycle_settled(before: Seq<Vec<(i128, i128)>>, terms: Seq<(usize, i128)>)
    requires
        is_cycle_step(before, terms, before),
        forall|j: int| 0 <= j < terms.len() ==> (#[trigger] terms[j]).0 < before.len(),
    ensures
        cycle_stable(sets(corridors::list_views(before)), terms),
{
    let family = sets(corridors::list_views(before));
    assert forall|j: int, d: Vector|
        0 <= j < terms.len() && family[terms[j].0 as int].contains(d) implies #[trigger] supports_term(
        family,
        terms,
        j,
        d,
    ) by {
        let list = before[terms[j].0 as int]@;
        let test = term_test(family, terms, j);
        assert(list == list.filter(test));
        seqs::lemma_filter_all(list, test);
        let i = choose|i: int| 0 <= i < list.len() && corridors::vector(#[trigger] list[i]) == d;
        assert(test(list[i]));
    }
}

/// Lists that fit together, and that keep all that do, are what is left.
proof fn lemma_reduced(
    model: &PlacementModel,
    choices: Seq<Option<(i128, i128)>>,
    domains: Seq<Vec<(i128, i128)>>,
)
    requires
        placement::choices_wf(model.corridors@, choices),
        ({
            let starts = start_lists(model.corridors@, choices);
            &&& are_kept(starts, domains)
            &&& keeps_stable(model, starts, domains)
        }),
        is_stable(model, sets(corridors::list_views(domains))),
    ensures
        reduction(model, choices) == Some(corridors::list_views(domains)),
{
    let starts = start_lists(model.corridors@, choices);
    let views = corridors::list_views(domains);
    let family = sets(views);
    assert(part(family, sets(starts))) by {
        assert forall|k: int, d: Vector| 0 <= k < family.len() && #[trigger] family[k].contains(d) implies sets(
            starts,
        )[k].contains(d) by {
            let i = choose|i: int| 0 <= i < domains[k]@.len() && corridors::vector(#[trigger] domains[k]@[i]) == d;
            seqs::lemma_filter_all(starts[k], kept_test(domains[k]@));
            assert(starts[k].filter(kept_test(domains[k]@)) == domains[k]@);
            assert(domains[k]@.contains(domains[k]@[i]));
            assert(starts[k].contains(domains[k]@[i]));
            lemma_holds_contains(starts[k], domains[k]@[i]);
        }
    }
    assert(stands(model, starts));
    let left = Seq::new(starts.len(), |k: int| starts[k].filter(survivor_test(model, starts, k)));
    assert forall|k: int| 0 <= k < starts.len() implies #[trigger] left[k] == views[k] by {
        let test = survivor_test(model, starts, k);
        assert forall|i: int| 0 <= i < starts[k].len() implies (test(#[trigger] starts[k][i]) <==> kept_test(
            domains[k]@,
        )(starts[k][i])) by {
            let d = corridors::vector(starts[k][i]);
            if survives(model, starts, k, d) {
                let other = choose|other: Seq<Set<Vector>>| #[trigger]
                    is_stable(model, other) && part(other, sets(starts)) && other[k].contains(d);
                assert(part(other, family));
                assert(family[k].contains(d));
            }
            if corridors::holds(domains[k]@, d) {
                assert(family[k].contains(d));
            }
        }
        seqs::lemma_filter_same(starts[k], test, kept_test(domains[k]@));
        assert(starts[k].filter(kept_test(domains[k]@)) == domains[k]@);
    }
    assert(left =~= views);
}

/// Sets of one vector each, with which all squares and cycles close, fit together.
proof fn lemma_selection_stable(
    p: &PlacementProblem,
    model: &PlacementModel,
    choices: Seq<Option<(i128, i128)>>,
    selection: Seq<Vector>,
)
    requires
        model.wf(p),
        is_selection(model, choices, selection),
    ensures
        ({
            let family = Seq::new(selection.len(), |k: int| Set::<Vector>::empty().insert(selection[k]));
            &&& is_stable(model, family)
            &&& part(family, sets(start_lists(model.corridors@, choices)))
            &&& forall|k: int| 0 <= k < selection.len() ==> (#[trigger] family[k]).contains(selection[k])
        }),
{
    let family = Seq::new(selection.len(), |k: int| Set::<Vector>::empty().insert(selection[k]));
    assert forall|k: int| 0 <= k < family.len() implies inhabited(#[trigger] family[k]) by {
        assert(family[k].contains(selection[k]));
    }
    assert forall|i: int| 0 <= i < model.plaquettes@.len() implies square_stable(
        family,
        #[trigger] model.plaquettes@[i],
    ) by {
        let square = model.plaquettes@[i];
        assert(placement::squares(p, model.corridors@, square));
        assert(square_closes(selection, square));
        let a = selection[square.top as int];
        let b = selection[square.right as int];
        let c = selection[square.left as int];
        let e = selection[square.bottom as int];
        assert(squared(family, square, a, b, c, e));
        assert forall|side: int, d: Vector|
            0 <= side < 4 && family[side_corridor(square, side)].contains(d) implies #[trigger] supports_side(
            family,
            square,
            side,
            d,
        ) by {
            assert(side_vector(side, a, b, c, e) == d);
        }
    }
    assert forall|i: int| 0 <= i < model.cycles@.len() implies cycle_stable(family, (#[trigger] model.cycles@[i])@) by {
        let terms = model.cycles@[i]@;
        assert(placement::closes(p, model.corridors@, model.cycles@[i]@));
        assert(cycle_closes(selection, model.cycles@[i]@));
        let picks = term_picks(selection, terms);
        assert forall|j: int| 0 <= j < terms.len() implies family[terms[j].0 as int].contains(#[trigger] picks[j]) by {
            assert(terms[j].0 < model.corridors@.len());
        }
        assert(balanced(family, terms, picks));
        assert forall|j: int, d: Vector|
            0 <= j < terms.len() && family[terms[j].0 as int].contains(d) implies #[trigger] supports_term(
            family,
            terms,
            j,
            d,
        ) by {
            assert(terms[j].0 < model.corridors@.len());
            assert(picks[j] == d);
        }
    }
    assert forall|k: int, d: Vector| 0 <= k < family.len() && #[trigger] family[k].contains(d) implies sets(
        start_lists(model.corridors@, choices),
    )[k].contains(d) by {
        assert(corridors::holds(start_lists(model.corridors@, choices)[k], selection[k]));
    }
}

/// The vectors between origins that the corridors allow and that agree with the choices are a
/// selection.
proof fn lemma_origins_select(
    p: &PlacementProblem,
    model: &PlacementModel,
    choices: Seq<Option<(i128, i128)>>,
    t: Seq<Vector>,
)
    requires
        model.wf(p),
        allowed(p, model.corridors@, t),
        placement::fits(p, model.corridors@, choices, t),
    ensures
        is_selection(
            model,
            choices,
            Seq::new(model.corridors@.len(), |k: int| placement::gap(p, model.corridors@, t, k)),
        ),
{
    let list = model.corridors@;
    let selection = Seq::new(list.len(), |k: int| placement::gap(p, list, t, k));
    assert forall|k: int| 0 <= k < selection.len() implies corridors::holds(
        list[k].domain@,
        #[trigger] selection[k],
    ) by {
        assert(corridors::holds(list[k].domain@, placement::gap(p, list, t, k)));
    }
    assert forall|k: int| 0 <= k < selection.len() implies corridors::holds(
        start_lists(list, choices)[k],
        #[trigger] selection[k],
    ) by {
        match choices[k] {
            Some(d) => {
                assert(placement::gap(p, list, t, k) == corridors::vector(d));
                assert(start_lists(list, choices)[k] == seq![d]);
                assert(seq![d][0] == d);
            },
            None => {
                assert(corridors::holds(list[k].domain@, placement::gap(p, list, t, k)));
            },
        }
    }
    assert forall|i: int| 0 <= i < model.plaquettes@.len() implies square_closes(
        selection,
        #[trigger] model.plaquettes@[i],
    ) by {
        assert(placement::squares(p, list, model.plaquettes@[i]));
    }
    assert forall|i: int| 0 <= i < model.cycles@.len() implies cycle_closes(
        selection,
        (#[trigger] model.cycles@[i])@,
    ) by {
        let terms = model.cycles@[i]@;
        assert(placement::closes(p, list, model.cycles@[i]@));
        lemma_term_picks(p, list, t, selection, terms, terms.len());
        assert(placement::term_sum(p, list, t, terms, terms.len()) == (0int, 0int));
    }
}

proof fn lemma_term_picks(
    p: &PlacementProblem,
    list: Seq<Corridor>,
    t: Seq<Vector>,
    selection: Seq<Vector>,
    terms: Seq<(usize, i128)>,
    k: nat,
)
    requires
        placement::terms_differ(list, terms),
        selection == Seq::new(list.len(), |k: int| placement::gap(p, list, t, k)),
        k <= terms.len(),
    ensures
        pick_sum(terms, term_picks(selection, terms), k) == placement::term_sum(p, list, t, terms, k),
    decreases k,
{
    if k > 0 {
        lemma_term_picks(p, list, t, selection, terms, (k - 1) as nat);
        assert(terms[k - 1].0 < list.len());
    }
}

/// Every selection with which all squares and cycles close stays among what is left.
pub proof fn law_selection_stays(
    p: &PlacementProblem,
    model: &PlacementModel,
    choices: Seq<Option<(i128, i128)>>,
    selection: Seq<Vector>,
)
    requires
        model.wf(p),
        choices.len() == model.corridors@.len(),
        is_selection(model, choices, selection),
    ensures
        reduction(model, choices) matches Some(left) && forall|k: int|
            0 <= k < selection.len() ==> corridors::holds(left[k], #[trigger] selection[k]),
{
    let starts = start_lists(model.corridors@, choices);
    let family = Seq::new(selection.len(), |k: int| Set::<Vector>::empty().insert(selection[k]));
    lemma_selection_stable(p, model, choices, selection);
    assert forall|k: int| 0 <= k < choices.len() implies (#[trigger] choices[k] matches Some(d) ==> corridors::holds(
        model.corridors@[k].domain@,
        corridors::vector(d),
    )) by {
        if choices[k] is Some {
            assert(starts[k] == seq![choices[k]->Some_0]);
            assert(corridors::holds(starts[k], selection[k]));
            assert(corridors::holds(model.corridors@[k].domain@, selection[k]));
        }
    }
    assert(stands(model, starts));
    let left = reduction(model, choices)->Some_0;
    assert forall|k: int| 0 <= k < selection.len() implies corridors::holds(left[k], #[trigger] selection[k]) by {
        assert(family[k].contains(selection[k]));
        assert(survives(model, starts, k, selection[k]));
        lemma_kept_some(starts[k], selection[k], survivor_test(model, starts, k));
    }
}

/// What is left of the vectors of each corridor: no list is empty, all squares and cycles can
/// close with every vector, and the list of a corridor for which a vector was chosen holds
/// that vector alone.
pub proof fn law_reduction_fits(p: &PlacementProblem, model: &PlacementModel, choices: Seq<Option<(i128, i128)>>)
    requires
        p.wf(),
        model.wf(p),
        reduction(model, choices) is Some,
    ensures
        ({
            let left = reduction(model, choices)->Some_0;
            &&& is_stable(model, sets(left))
            &&& forall|k: int|
                0 <= k < left.len() ==> (choices[k] matches Some(d) ==> #[trigger] left[k] == seq![d])
        }),
{
    let starts = start_lists(model.corridors@, choices);
    let left = reduction(model, choices)->Some_0;
    let largest = sets(left);
    lemma_largest(p, model, choices);
    assert forall|k: int| 0 <= k < left.len() implies (choices[k] matches Some(d) ==> #[trigger] left[k] == seq![d]) by {
        if choices[k] is Some {
            let d = choices[k]->Some_0;
            assert(starts[k] == seq![d]);
            assert(inhabited(largest[k]));
            let e = choose|e: Vector| largest[k].contains(e);
            seqs::lemma_filter_all(starts[k], survivor_test(model, starts, k));
            assert(left[k].len() > 0);
            assert(left[k] =~= seq![d]);
        }
    }
}

/// What is left is itself a family that fits together.
proof fn lemma_largest(p: &PlacementProblem, model: &PlacementModel, choices: Seq<Option<(i128, i128)>>)
    requires
        model.wf(p),
        reduction(model, choices) is Some,
    ensures
        is_stable(model, sets(reduction(model, choices)->Some_0)),
{
    let starts = start_lists(model.corridors@, choices);
    let left = reduction(model, choices)->Some_0;
    let largest = sets(left);
    assert forall|family: Seq<Set<Vector>>| #[trigger]
        is_stable(model, family) && part(family, sets(starts)) implies part(family, largest) by {
        assert forall|k: int, d: Vector| 0 <= k < family.len() && #[trigger] family[k].contains(d) implies largest[k].contains(
            d,
        ) by {
            assert(sets(starts)[k].contains(d));
            assert(survives(model, starts, k, d));
            lemma_kept_some(starts[k], d, survivor_test(model, starts, k));
        }
    }
    assert forall|k: int, d: Vector| 0 <= k < left.len() && #[trigger] largest[k].contains(d) implies survives(
        model,
        starts,
        k,
        d,
    ) by {
        let i = choose|i: int| 0 <= i < left[k].len() && corridors::vector(#[trigger] left[k][i]) == d;
        seqs::lemma_filter_all(starts[k], survivor_test(model, starts, k));
        assert(left[k].contains(left[k][i]));
    }
    let some = choose|family: Seq<Set<Vector>>| #[trigger] is_stable(model, family) && part(family, sets(starts));
    assert forall|k: int| 0 <= k < largest.len() implies inhabited(#[trigger] largest[k]) by {
        assert(inhabited(some[k]));
        let d = choose|d: Vector| some[k].contains(d);
        assert(part(some, largest));
        assert(largest[k].contains(d));
    }
    assert forall|i: int| 0 <= i < model.plaquettes@.len() implies square_stable(
        largest,
        #[trigger] model.plaquettes@[i],
    ) by {
        let square = model.plaquettes@[i];
        assert(placement::squares(p, model.corridors@, square));
        assert forall|side: int, d: Vector|
            0 <= side < 4 && largest[side_corridor(square, side)].contains(d) implies #[trigger] supports_side(
            largest,
            square,
            side,
            d,
        ) by {
            let k = side_corridor(square, side);
            assert(survives(model, starts, k, d));
            let family = choose|family: Seq<Set<Vector>>| #[trigger]
                is_stable(model, family) && part(family, sets(starts)) && family[k].contains(d);
            assert(square_stable(family, model.plaquettes@[i]));
            assert(supports_side(family, square, side, d));
            assert(part(family, largest));
            lemma_side_more(family, largest, square, side, d);
        }
    }
    assert forall|i: int| 0 <= i < model.cycles@.len() implies cycle_stable(largest, (#[trigger] model.cycles@[i])@) by {
        let terms = model.cycles@[i]@;
        assert(placement::closes(p, model.corridors@, model.cycles@[i]@));
        assert forall|j: int, d: Vector|
            0 <= j < terms.len() && largest[terms[j].0 as int].contains(d) implies #[trigger] supports_term(
            largest,
            terms,
            j,
            d,
        ) by {
            let k = terms[j].0 as int;
            assert(terms[j].0 < model.corridors@.len());
            assert(survives(model, starts, k, d));
            let family = choose|family: Seq<Set<Vector>>| #[trigger]
                is_stable(model, family) && part(family, sets(starts)) && family[k].contains(d);
            assert(cycle_stable(family, model.cycles@[i]@));
            assert(supports_term(family, terms, j, d));
            assert(part(family, largest));
            lemma_term_more(family, largest, terms, j, d);
        }
    }
}

/// What `reduce_family_domains` gives: nothing if a choice is none of the vectors of its corridor
/// or no sets from the lists fit together, else the largest sets that do, in the order of the
/// lists.
///
/// So every selection that agrees with the choices, and with which all squares and cycles
/// close, stays; every vector that is left is completed by others around each square and each
/// cycle; and the list of a corridor for which a vector was chosen holds that vector alone.
pub open spec fn is_reduction_result(
    p: &PlacementProblem,
    model: &PlacementModel,
    choices: Seq<Option<(i128, i128)>>,
    reduced: Option<Vec<Vec<(i128, i128)>>>,
) -> bool {
    match reduced {
        Some(domains) => {
            let left = corridors::list_views(domains@);
            &&& reduction(model, choices) == Some(left)
            &&& narrowed(model.corridors@, domains@)
            &&& is_stable(model, sets(left))
            &&& forall|k: int|
                0 <= k < left.len() ==> (choices[k] matches Some(d) ==> (#[trigger] domains@[k])@ == seq![d])
            &&& forall|selection: Seq<Vector>| #[trigger]
                is_selection(model, choices, selection) ==> forall|k: int|
                    0 <= k < selection.len() ==> corridors::holds(domains@[k]@, #[trigger] selection[k])
            &&& forall|t: Seq<Vector>| #[trigger]
                placement::fits(p, model.corridors@, choices, t) && allowed(p, model.corridors@, t) ==> in_domains(
                    p,
                    model.corridors@,
                    domains@,
                    t,
                )
        },
        None => {
            &&& reduction(model, choices) is None
            &&& forall|selection: Seq<Vector>| !#[trigger] is_selection(model, choices, selection)
            &&& forall|t: Seq<Vector>| #[trigger]
                placement::fits(p, model.corridors@, choices, t) ==> !allowed(p, model.corridors@, t)
        },
    }
}

proof fn lemma_result(
    p: &PlacementProblem,
    model: &PlacementModel,
    choices: Seq<Option<(i128, i128)>>,
    reduced: Option<Vec<Vec<(i128, i128)>>>,
)
    requires
        p.wf(),
        model.wf(p),
        choices.len() == model.corridors@.len(),
        match reduced {
            Some(domains) => reduction(model, choices) == Some(corridors::list_views(domains@)) && narrowed(
                model.corridors@,
                domains@,
            ),
            None => reduction(model, choices) is None,
        },
    ensures
        is_reduction_result(p, model, choices, reduced),
{
    let list = model.corridors@;
    assert forall|selection: Seq<Vector>| #[trigger] is_selection(model, choices, selection) implies reduced is Some
        && forall|k: int|
        0 <= k < selection.len() ==> corridors::holds(reduced->Some_0@[k]@, #[trigger] selection[k]) by {
        law_selection_stays(p, model, choices, selection);
        if reduced is Some {
            let left = corridors::list_views(reduced->Some_0@);
            assert forall|k: int| 0 <= k < selection.len() implies corridors::holds(
                reduced->Some_0@[k]@,
                #[trigger] selection[k],
            ) by {
                assert(corridors::holds(left[k], selection[k]));
            }
        }
    }
    assert forall|t: Seq<Vector>| #[trigger]
        placement::fits(p, list, choices, t) && allowed(p, list, t) implies reduced is Some && in_domains(
        p,
        list,
        reduced->Some_0@,
        t,
    ) by {
        lemma_origins_select(p, model, choices, t);
        let selection = Seq::new(list.len(), |k: int| placement::gap(p, list, t, k));
        assert(is_selection(model, choices, selection));
        assert forall|k: int| 0 <= k < list.len() implies corridors::holds(
            #[trigger] reduced->Some_0@[k]@,
            placement::gap(p, list, t, k),
        ) by {
            assert(corridors::holds(reduced->Some_0@[k]@, selection[k]));
        }
    }
    if reduced is Some {
        law_reduction_fits(p, model, choices);
        let left = corridors::list_views(reduced->Some_0@);
        assert forall|k: int| 0 <= k < left.len() implies (choices[k] matches Some(d) ==> (
        #[trigger] reduced->Some_0@[k])@ == seq![d]) by {
            assert(left[k] == reduced->Some_0@[k]@);
        }
    }
}

/// The vectors that are left of each corridor, where those for which nothing fits were
/// dropped until nothing changes. Nothing is returned if a choice is none of the vectors of its
/// corridor, or if no vectors fit the choices.
pub(crate) fn reduce_family_domains(
    p: &PlacementProblem,
    model: &PlacementModel,
    choices: &Vec<Option<(i128, i128)>>,
) -> (reduced: Option<Vec<Vec<(i128, i128)>>>)
    requires
        p.wf(),
        model.wf(p),
        choices@.len() == model.corridors@.len(),
    ensures
        is_reduction_result(p, model, choices@, reduced),
{
    let list: &Vec<Corridor> = &model.corridors;
    let mut k: usize = 0;
    while k < list.len()
        invariant
            p.wf(),
            model.wf(p),
            list@ == model.corridors@,
            choices@.len() == list@.len(),
            k <= list@.len(),
            forall|j: int|
                0 <= j < k ==> (#[trigger] choices@[j] matches Some(d) ==> corridors::holds(
                    list@[j].domain@,
                    corridors::vector(d),
                )),
        decreases list.len() - k,
    {
        match choices[k] {
            Some(d) => {
                if !has_vector(&list[k].domain, d) {
                    proof {
                        assert(!placement::choices_wf(list@, choices@));
                        lemma_result(p, model, choices@, None);
                    }
                    return None;
                }
            },
            None => {},
        }
        k += 1;
    }
    let mut domains: Vec<Vec<(i128, i128)>> = start_domains(p, list, choices);
    let ghost starts = start_lists(list@, choices@);
    proof {
        assert(are_kept(starts, domains@)) by {
            assert forall|k: int| 0 <= k < starts.len() implies starts[k].filter(kept_test((#[trigger] domains@[k])@))
                == domains@[k]@ by {
                assert(corridors::list_views(domains@)[k] == starts[k]);
                seqs::lemma_filter_all(starts[k], kept_test(domains@[k]@));
                assert forall|i: int| 0 <= i < starts[k].len() implies kept_test(domains@[k]@)(#[trigger] starts[k][i]) by {
                    assert(corridors::vector(domains@[k]@[i]) == corridors::vector(starts[k][i]));
                }
            }
        }
    }
    let mut changed: bool = true;
    while changed
        invariant
            p.wf(),
            model.wf(p),
            placement::choices_wf(list@, choices@),
            list@ == model.corridors@,
            starts == start_lists(list@, choices@),
            narrowed(list@, domains@),
            are_kept(starts, domains@),
            keeps_stable(model, starts, domains@),
            !changed ==> forall|i: int|
                0 <= i < model.plaquettes@.len() ==> square_stable(
                    sets(corridors::list_views(domains@)),
                    #[trigger] model.plaquettes@[i],
                ),
            !changed ==> forall|i: int|
                0 <= i < model.cycles@.len() ==> cycle_stable(
                    sets(corridors::list_views(domains@)),
                    (#[trigger] model.cycles@[i])@,
                ),
        decreases size_total(domains@, list@.len()), changed as int,
    {
        changed = false;
        let ghost entry = domains@;
        let mut i: usize = 0;
        while i < model.plaquettes.len()
            invariant
                p.wf(),
                model.wf(p),
                placement::choices_wf(list@, choices@),
                list@ == model.corridors@,
                starts == start_lists(list@, choices@),
                narrowed(list@, domains@),
                are_kept(starts, domains@),
                keeps_stable(model, starts, domains@),
                i <= model.plaquettes@.len(),
                changed ==> size_total(domains@, list@.len()) < size_total(entry, list@.len()),
                !changed ==> domains@ == entry,
                !changed ==> forall|j: int|
                    0 <= j < i ==> square_stable(
                        sets(corridors::list_views(domains@)),
                        #[trigger] model.plaquettes@[j],
                    ),
            decreases model.plaquettes.len() - i,
        {
            let ghost held = domains@;
            let ghost square = model.plaquettes@[i as int];
            assert(placement::squares(p, list@, model.plaquettes@[i as int]));
            match apply_plaquette(p, list, &mut domains, model.plaquettes[i]) {
                Some(more) => {
                    proof {
                        lemma_square_order(starts, held, square, domains@);
                        assert forall|family: Seq<Set<Vector>>| #[trigger]
                            is_stable(model, family) && part(family, sets(starts)) implies part(
                            family,
                            sets(corridors::list_views(domains@)),
                        ) by {
                            assert(square_stable(family, model.plaquettes@[i as int]));
                            lemma_square_keeps(family, held, square, domains@);
                        }
                        if !more {
                            lemma_square_settled(held, square);
                        }
                    }
                    if more {
                        changed = true;
                    }
                },
                None => {
                    proof {
                        if stands(model, starts) {
                            let family = choose|family: Seq<Set<Vector>>| #[trigger]
                                is_stable(model, family) && part(family, sets(starts));
                            lemma_square_witness(p, model, family, held, i as int);
                        }
                        lemma_result(p, model, choices@, None);
                    }
                    return None;
                },
            }
            i += 1;
        }
        let mut j: usize = 0;
        while j < model.cycles.len()
            invariant
                p.wf(),
                model.wf(p),
                placement::choices_wf(list@, choices@),
                list@ == model.corridors@,
                starts == start_lists(list@, choices@),
                narrowed(list@, domains@),
                are_kept(starts, domains@),
                keeps_stable(model, starts, domains@),
                j <= model.cycles@.len(),
                changed ==> size_total(domains@, list@.len()) < size_total(entry, list@.len()),
                !changed ==> domains@ == entry,
                !changed ==> forall|i: int|
                    0 <= i < model.plaquettes@.len() ==> square_stable(
                        sets(corridors::list_views(domains@)),
                        #[trigger] model.plaquettes@[i],
                    ),
                !changed ==> forall|i: int|
                    0 <= i < j ==> cycle_stable(
                        sets(corridors::list_views(domains@)),
                        (#[trigger] model.cycles@[i])@,
                    ),
            decreases model.cycles.len() - j,
        {
            let ghost held = domains@;
            let ghost terms = model.cycles@[j as int]@;
            proof {
                assert(placement::closes(p, list@, model.cycles@[j as int]@));
                assert forall|i: int| 0 <= i < terms.len() implies (#[trigger] terms[i]).0 < held.len() by {}
            }
            match apply_cycle_constraint(p, list, &mut domains, &model.cycles[j]) {
                Some(more) => {
                    proof {
                        lemma_cycle_order(starts, held, terms, domains@);
                        assert forall|family: Seq<Set<Vector>>| #[trigger]
                            is_stable(model, family) && part(family, sets(starts)) implies part(
                            family,
                            sets(corridors::list_views(domains@)),
                        ) by {
                            assert(cycle_stable(family, model.cycles@[j as int]@));
                            lemma_cycle_keeps(family, held, terms, domains@);
                        }
                        if !more {
                            lemma_cycle_settled(held, terms);
                        }
                    }
                    if more {
                        changed = true;
                    }
                },
                None => {
                    proof {
                        if stands(model, starts) {
                            let family = choose|family: Seq<Set<Vector>>| #[trigger]
                                is_stable(model, family) && part(family, sets(starts));
                            lemma_cycle_witness(p, model, family, held, j as int);
                        }
                        lemma_result(p, model, choices@, None);
                    }
                    return None;
                },
            }
            j += 1;
        }
    }
    proof {
        let family = sets(corridors::list_views(domains@));
        assert forall|k: int| 0 <= k < family.len() implies inhabited(#[trigger] family[k]) by {
            assert(part_of(domains@[k]@, list@[k].domain@));
            assert(corridors::holds(domains@[k]@, corridors::vector(domains@[k]@[0])));
            assert(family[k].contains(corridors::vector(domains@[k]@[0])));
        }
        assert(is_stable(model, family));
        lemma_reduced(model, choices@, domains@);
        lemma_result(p, model, choices@, Some(domains));
    }
    Some(domains)
}

/// A family that fits together holds vectors with which a square closes.
proof fn lemma_square_witness(
    p: &PlacementProblem,
    model: &PlacementModel,
    family: Seq<Set<Vector>>,
    held: Seq<Vec<(i128, i128)>>,
    i: int,
)
    requires
        model.wf(p),
        is_stable(model, family),
        part(family, sets(corridors::list_views(held))),
        0 <= i < model.plaquettes@.len(),
    ensures
        exists|top: Vector, right: Vector, left: Vector, bottom: Vector| #[trigger]
            squared(sets(corridors::list_views(held)), model.plaquettes@[i], top, right, left, bottom),
{
    let square = model.plaquettes@[i];
    assert(placement::squares(p, model.corridors@, square));
    assert(square_stable(family, model.plaquettes@[i]));
    assert(inhabited(family[square.top as int]));
    let d = choose|d: Vector| family[square.top as int].contains(d);
    assert(side_corridor(square, 0) == square.top);
    assert(supports_side(family, square, 0, d));
    lemma_side_more(family, sets(corridors::list_views(held)), square, 0, d);
}

proof fn lemma_cycle_witness(
    p: &PlacementProblem,
    model: &PlacementModel,
    family: Seq<Set<Vector>>,
    held: Seq<Vec<(i128, i128)>>,
    i: int,
)
    requires
        model.wf(p),
        is_stable(model, family),
        part(family, sets(corridors::list_views(held))),
        0 <= i < model.cycles@.len(),
        model.cycles@[i]@.len() > 0,
    ensures
        exists|picks: Seq<Vector>| #[trigger]
            balanced(sets(corridors::list_views(held)), model.cycles@[i]@, picks),
{
    let terms = model.cycles@[i]@;
    assert(placement::closes(p, model.corridors@, model.cycles@[i]@));
    assert(cycle_stable(family, model.cycles@[i]@));
    assert(terms[0].0 < model.corridors@.len());
    assert(inhabited(family[terms[0].0 as int]));
    let d = choose|d: Vector| family[terms[0].0 as int].contains(d);
    assert(supports_term(family, terms, 0, d));
    assert forall|j: int| 0 <= j < terms.len() implies (#[trigger] terms[j]).0 < family.len() by {}
    lemma_term_more(family, sets(corridors::list_views(held)), terms, 0, d);
}

} // verus!
