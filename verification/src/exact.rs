//! The search for origins, piece by piece.

use crate::corridors::{has_vector, Link, Vector};
use crate::placement::PlacementProblem;
use crate::search::{copy_choices, has_state};
use crate::corridors;
use crate::placement;
use crate::repairs;
use crate::search;
use vstd::prelude::*;

verus! {

/// Origins of some pieces.
pub type Origins = Vec<Option<(i128, i128)>>;

/// The origins of all pieces agree with those that were set.
pub open spec fn agrees(assigned: Seq<Option<(i128, i128)>>, t: Seq<Vector>) -> bool {
    forall|v: int|
        0 <= v < assigned.len() ==> (#[trigger] assigned[v] matches Some(o) ==> t[v] == corridors::vector(o))
}

/// No placement agrees with the origins that were set.
pub open spec fn hopeless(p: &PlacementProblem, assigned: Seq<Option<(i128, i128)>>) -> bool {
    forall|t: Seq<Vector>| #[trigger] p.coherent(t) ==> !agrees(assigned, t)
}

/// The link allows the vector between two origins.
pub open spec fn link_allows(link: Link, from: Vector, to: Vector) -> bool {
    corridors::holds(link.deltas@, corridors::minus(to, from))
}

/// All links between pieces that were set allow their origins.
pub open spec fn consistent(p: &PlacementProblem, assigned: Seq<Option<(i128, i128)>>) -> bool {
    forall|l: int| 0 <= l < p.links@.len() ==> link_consistent(#[trigger] p.links@[l], assigned)
}

pub open spec fn link_consistent(link: Link, assigned: Seq<Option<(i128, i128)>>) -> bool {
    assigned[link.from as int] is Some && assigned[link.to as int] is Some ==> link_allows(
        link,
        corridors::vector(assigned[link.from as int]->Some_0),
        corridors::vector(assigned[link.to as int]->Some_0),
    )
}

/// The number of pieces that were set.
pub open spec fn filled(assigned: Seq<Option<(i128, i128)>>) -> int {
    assigned.len() - search::open_count(assigned, assigned.len())
}

/// No origin that was set is far away.
pub open spec fn bounded(p: &PlacementProblem, assigned: Seq<Option<(i128, i128)>>) -> bool {
    forall|v: int|
        0 <= v < assigned.len() ==> placement::within(#[trigger] assigned[v], filled(assigned) * p.limit)
}

/// What holds of the origins during a search.
pub open spec fn origins_wf(p: &PlacementProblem, assigned: Seq<Option<(i128, i128)>>) -> bool {
    &&& assigned.len() == p.nodes
    &&& consistent(p, assigned)
    &&& bounded(p, assigned)
    &&& filled(assigned) > 0
}

proof fn lemma_open_bound(assigned: Seq<Option<(i128, i128)>>, k: nat)
    requires
        k <= assigned.len(),
    ensures
        search::open_count(assigned, k) <= k,
    decreases k,
{
    if k > 0 {
        lemma_open_bound(assigned, (k - 1) as nat);
    }
}

/// The links at each piece.
pub open spec fn are_incident(p: &PlacementProblem, incident: Seq<Vec<usize>>) -> bool {
    &&& incident.len() == p.nodes
    &&& forall|v: int, i: int|
        0 <= v < p.nodes && 0 <= i < incident[v]@.len() ==> (#[trigger] incident[v]@[i]) < p.links@.len() && p.touches(
            incident[v]@[i] as int,
            v,
        )
    &&& forall|l: int, v: int|
        0 <= l < p.links@.len() && 0 <= v < p.nodes && #[trigger] p.touches(l, v) ==> link_listed(incident[v]@, l)
}

/// The link is in the list.
pub open spec fn link_listed(row: Seq<usize>, l: int) -> bool {
    exists|i: int| 0 <= i < row.len() && #[trigger] row[i] == l
}

fn push_link(incident: &mut Vec<Vec<usize>>, v: usize, l: usize)
    requires
        v < old(incident)@.len(),
    ensures
        final(incident)@.len() == old(incident)@.len(),
        final(incident)@[v as int]@ == old(incident)@[v as int]@.push(l),
        forall|u: int| 0 <= u < old(incident)@.len() && u != v ==> final(incident)@[u] == old(incident)@[u],
{
    let mut row: Vec<usize> = Vec::new();
    std::mem::swap(&mut row, &mut incident[v]);
    row.push(l);
    incident.set(v, row);
}

/// Those of the first `n` links that are at a piece.
pub open spec fn incident_row(p: &PlacementProblem, v: int, n: nat) -> Seq<usize>
    decreases n,
{
    if n == 0 {
        Seq::empty()
    } else {
        let earlier = incident_row(p, v, (n - 1) as nat);
        if p.links@[n - 1].from == v || p.links@[n - 1].to == v {
            earlier.push((n - 1) as usize)
        } else {
            earlier
        }
    }
}

/// The links at each piece, in their order.
pub open spec fn are_rows(p: &PlacementProblem, incident: Seq<Vec<usize>>) -> bool {
    &&& are_incident(p, incident)
    &&& forall|v: int| 0 <= v < p.nodes ==> (#[trigger] incident[v])@ == incident_row(p, v, p.links@.len())
}

/// The links at each piece.
pub(crate) fn collect_incident(p: &PlacementProblem) -> (incident: Vec<Vec<usize>>)
    requires
        p.wf(),
    ensures
        are_rows(p, incident@),
{
    let mut incident: Vec<Vec<usize>> = Vec::new();
    let mut i: usize = 0;
    while i < p.nodes
        invariant
            i <= p.nodes,
            incident@.len() == i,
            forall|v: int| 0 <= v < i ==> (#[trigger] incident@[v])@.len() == 0,
        decreases p.nodes - i,
    {
        incident.push(Vec::new());
        i += 1;
    }
    let mut l: usize = 0;
    while l < p.links.len()
        invariant
            p.wf(),
            l <= p.links@.len(),
            incident@.len() == p.nodes,
            forall|v: int| 0 <= v < p.nodes ==> (#[trigger] incident@[v])@ == incident_row(p, v, l as nat),
            forall|v: int, i: int|
                0 <= v < p.nodes && 0 <= i < incident@[v]@.len() ==> (#[trigger] incident@[v]@[i]) < p.links@.len()
                    && p.touches(incident@[v]@[i] as int, v),
            forall|m: int, v: int|
                0 <= m < l && 0 <= v < p.nodes && #[trigger] p.touches(m, v) ==> link_listed(incident@[v]@, m),
        decreases p.links.len() - l,
    {
        assert(p.link_wf(p.links@[l as int]));
        let from: usize = p.links[l].from;
        let to: usize = p.links[l].to;
        let ghost before = incident@;
        push_link(&mut incident, from, l);
        push_link(&mut incident, to, l);
        proof {
            assert(p.touches(l as int, from as int) && p.touches(l as int, to as int));
            assert forall|v: int, i: int| 0 <= v < p.nodes && 0 <= i < incident@[v]@.len() implies (
            #[trigger] incident@[v]@[i]) < p.links@.len() && p.touches(incident@[v]@[i] as int, v) by {
                if i < before[v]@.len() {
                    assert(incident@[v]@[i] == before[v]@[i]);
                } else {
                    assert(v == from || v == to);
                    assert(incident@[v]@[i] == l);
                }
            }
            assert forall|m: int, v: int|
                0 <= m < l + 1 && 0 <= v < p.nodes && #[trigger] p.touches(m, v) implies link_listed(
                incident@[v]@,
                m,
            ) by {
                if m < l {
                    assert(link_listed(before[v]@, m));
                    let i = choose|i: int| 0 <= i < before[v]@.len() && #[trigger] before[v]@[i] == m;
                    assert(incident@[v]@[i] == m);
                } else {
                    let i = before[v]@.len() as int;
                    assert(incident@[v]@[i] == l);
                }
            }
        }
        l += 1;
    }
    incident
}

/// The link leads from a piece that was set to the given one.
pub open spec fn binds(p: &PlacementProblem, assigned: Seq<Option<(i128, i128)>>, l: int, v: int) -> bool {
    let link = p.links@[l];
    (link.to == v && assigned[link.from as int] is Some) || (link.from == v && assigned[link.to as int] is Some)
}

/// The link allows the piece to stand at an origin.
pub open spec fn permits(
    p: &PlacementProblem,
    assigned: Seq<Option<(i128, i128)>>,
    l: int,
    v: int,
    o: Vector,
) -> bool {
    let link = p.links@[l];
    if link.to == v {
        link_allows(link, corridors::vector(assigned[link.from as int]->Some_0), o)
    } else {
        link_allows(link, o, corridors::vector(assigned[link.to as int]->Some_0))
    }
}

/// All links from pieces that were set allow the piece to stand at an origin.
pub open spec fn can_stand(p: &PlacementProblem, assigned: Seq<Option<(i128, i128)>>, v: int, o: Vector) -> bool {
    forall|l: int| 0 <= l < p.links@.len() && #[trigger] binds(p, assigned, l, v) ==> permits(p, assigned, l, v, o)
}

/// Some link leads from a piece that was set to the given one.
pub open spec fn is_bound(p: &PlacementProblem, assigned: Seq<Option<(i128, i128)>>, v: int) -> bool {
    exists|l: int| 0 <= l < p.links@.len() && #[trigger] binds(p, assigned, l, v)
}

/// The order of origins.
pub open spec fn is_less(a: (i128, i128), b: (i128, i128)) -> bool {
    a.0 < b.0 || (a.0 == b.0 && a.1 < b.1)
}

/// The origins ascend.
pub open spec fn ascending(list: Seq<(i128, i128)>) -> bool {
    forall|i: int, j: int| #![trigger list[i], list[j]] 0 <= i < j < list.len() ==> is_less(list[i], list[j])
}

/// Adds an origin in its place, if it is not there.
fn insert_origin(list: &mut Vec<(i128, i128)>, o: (i128, i128))
    ensures
        ascending(old(list)@) ==> ascending(final(list)@),
        forall|v: Vector| #[trigger]
            corridors::holds(final(list)@, v) <==> corridors::holds(old(list)@, v) || v == corridors::vector(o),
        forall|far: int|
            corridors::short(old(list)@, far) && -far <= o.0 <= far && -far <= o.1 <= far ==> #[trigger] corridors::short(
                final(list)@,
                far,
            ),
{
    let mut at: usize = 0;
    while at < list.len() && (list[at].0 < o.0 || (list[at].0 == o.0 && list[at].1 < o.1))
        invariant
            at <= list@.len(),
            forall|i: int| 0 <= i < at ==> is_less(#[trigger] list@[i], o),
        decreases list.len() - at,
    {
        at += 1;
    }
    if at < list.len() && list[at].0 == o.0 && list[at].1 == o.1 {
        assert(corridors::vector(list@[at as int]) == corridors::vector(o));
        return;
    }
    let ghost before = list@;
    list.insert(at, o);
    proof {
        corridors::lemma_holds_insert(before, at as int, o);
        if ascending(before) {
            assert forall|i: int, j: int| #![trigger list@[i], list@[j]] 0 <= i < j < list@.len() implies is_less(
                list@[i],
                list@[j],
            ) by {
                if j < at {
                    assert(list@[i] == before[i] && list@[j] == before[j]);
                } else if j == at {
                    assert(list@[i] == before[i]);
                } else {
                    assert(list@[j] == before[j - 1]);
                    assert(before[at as int] == before[j - 1] || is_less(before[at as int], before[j - 1]));
                    if i < at {
                        assert(list@[i] == before[i]);
                    } else if i > at {
                        assert(list@[i] == before[i - 1]);
                    }
                }
            }
        }
        assert forall|far: int|
            corridors::short(before, far) && -far <= o.0 <= far && -far <= o.1 <= far implies #[trigger] corridors::short(
            list@,
            far,
        ) by {
            assert forall|i: int| 0 <= i < list@.len() implies -far <= (#[trigger] list@[i]).0 <= far && -far
                <= list@[i].1 <= far by {
                if i < at {
                    assert(list@[i] == before[i]);
                } else if i > at {
                    assert(list@[i] == before[i - 1]);
                }
            }
        }
    }
}

/// The origins at which a link allows a piece to stand.
fn link_origins(
    p: &PlacementProblem,
    assigned: &Origins,
    l: usize,
    v: usize,
    far: Ghost<int>,
) -> (origins: Vec<(i128, i128)>)
    requires
        p.wf(),
        assigned@.len() == p.nodes,
        l < p.links@.len(),
        v < p.nodes,
        binds(p, assigned@, l as int, v as int),
        0 <= far@ <= 0xf_ffff_ffff_ffff_ffff_ffff_ffff,
        forall|u: int| 0 <= u < p.nodes ==> placement::within(#[trigger] assigned@[u], far@),
    ensures
        forall|o: Vector| #[trigger]
            corridors::holds(origins@, o) <==> permits(p, assigned@, l as int, v as int, o),
        corridors::short(origins@, far@ + p.limit),
        ascending(origins@),
{
    let ghost link = p.links@[l as int];
    assert(p.link_wf(link));
    let forward: bool = p.links[l].to == v;
    let other: usize = if forward {
        p.links[l].from
    } else {
        p.links[l].to
    };
    assert(placement::within(assigned@[other as int], far@));
    let base: (i128, i128) = match assigned[other] {
        Some(base) => base,
        None => (0, 0),
    };
    let mut origins: Vec<(i128, i128)> = Vec::new();
    let mut i: usize = 0;
    while i < p.links[l].deltas.len()
        invariant
            p.wf(),
            l < p.links@.len(),
            link == p.links@[l as int],
            p.link_wf(link),
            p.limit <= 0x7f_ffff_ffff_ffff_ffff_ffff_ffff,
            0 <= far@ <= 0xf_ffff_ffff_ffff_ffff_ffff_ffff,
            -far@ <= base.0 <= far@,
            -far@ <= base.1 <= far@,
            i <= link.deltas@.len(),
            corridors::short(origins@, far@ + p.limit),
            ascending(origins@),
            forall|o: Vector| #[trigger]
                corridors::holds(origins@, o) <==> corridors::holds(
                    link.deltas@.take(i as int),
                    if forward {
                        corridors::minus(o, corridors::vector(base))
                    } else {
                        corridors::minus(corridors::vector(base), o)
                    },
                ),
        decreases link.deltas@.len() - i,
    {
        let d: (i128, i128) = p.links[l].deltas[i];
        assert(-p.limit <= link.deltas@[i as int].0 <= p.limit);
        let o: (i128, i128) = if forward {
            (base.0 + d.0, base.1 + d.1)
        } else {
            (base.0 - d.0, base.1 - d.1)
        };
        let ghost before = origins@;
        insert_origin(&mut origins, o);
        proof {
            let more = link.deltas@.take(i + 1);
            assert(more =~= link.deltas@.take(i as int).push(d));
            corridors::lemma_holds_push(link.deltas@.take(i as int), d);
            assert forall|q: Vector| #[trigger]
                corridors::holds(origins@, q) <==> corridors::holds(
                    more,
                    if forward {
                        corridors::minus(q, corridors::vector(base))
                    } else {
                        corridors::minus(corridors::vector(base), q)
                    },
                ) by {
                let gap = if forward {
                    corridors::minus(q, corridors::vector(base))
                } else {
                    corridors::minus(corridors::vector(base), q)
                };
                assert(corridors::holds(before, q) <==> corridors::holds(link.deltas@.take(i as int), gap));
                assert(gap == corridors::vector(d) <==> q == corridors::vector(o));
            }
        }
        i += 1;
    }
    assert(link.deltas@.take(i as int) =~= link.deltas@);
    origins
}

/// The origins at which a piece can stand; none if it is not linked to a piece that was set.
pub open spec fn standing(p: &PlacementProblem, assigned: Seq<Option<(i128, i128)>>, v: int) -> Set<Vector> {
    Set::new(|o: Vector| is_bound(p, assigned, v) && can_stand(p, assigned, v, o))
}

/// The origins at which a piece can stand, in ascending order.
pub open spec fn is_stand_list(
    p: &PlacementProblem,
    assigned: Seq<Option<(i128, i128)>>,
    v: int,
    list: Seq<(i128, i128)>,
) -> bool {
    &&& ascending(list)
    &&& forall|o: Vector| #[trigger] corridors::holds(list, o) <==> standing(p, assigned, v).contains(o)
}

/// The origins at which a piece can stand, in ascending order.
pub open spec fn stand_list(p: &PlacementProblem, assigned: Seq<Option<(i128, i128)>>, v: int) -> Seq<(i128, i128)> {
    choose|list: Seq<(i128, i128)>| is_stand_list(p, assigned, v, list)
}

/// Lists that ascend and hold the same are the same.
proof fn lemma_ascending_same(a: Seq<(i128, i128)>, b: Seq<(i128, i128)>)
    requires
        ascending(a),
        ascending(b),
        forall|o: Vector| #[trigger] corridors::holds(a, o) <==> corridors::holds(b, o),
    ensures
        a == b,
    decreases a.len(),
{
    if a.len() == 0 {
        if b.len() > 0 {
            assert(corridors::holds(b, corridors::vector(b[0])));
            assert(corridors::holds(a, corridors::vector(b[0])));
        }
        assert(a =~= b);
    } else {
        assert(corridors::holds(a, corridors::vector(a[0])));
        assert(corridors::holds(b, corridors::vector(a[0])));
        let i = choose|i: int| 0 <= i < b.len() && corridors::vector(#[trigger] b[i]) == corridors::vector(a[0]);
        assert(corridors::holds(b, corridors::vector(b[0])));
        assert(corridors::holds(a, corridors::vector(b[0])));
        let j = choose|j: int| 0 <= j < a.len() && corridors::vector(#[trigger] a[j]) == corridors::vector(b[0]);
        if i > 0 {
            assert(is_less(b[0], b[i]));
            if j > 0 {
                assert(is_less(a[0], a[j]));
            }
        }
        assert(a[0] == b[0]);
        let x = a.drop_first();
        let y = b.drop_first();
        assert forall|m: int, n: int| #![trigger x[m], x[n]] 0 <= m < n < x.len() implies is_less(x[m], x[n]) by {
            assert(is_less(a[m + 1], a[n + 1]));
        }
        assert forall|m: int, n: int| #![trigger y[m], y[n]] 0 <= m < n < y.len() implies is_less(y[m], y[n]) by {
            assert(is_less(b[m + 1], b[n + 1]));
        }
        assert forall|o: Vector| #[trigger] corridors::holds(x, o) <==> corridors::holds(y, o) by {
            if corridors::holds(x, o) {
                let m = choose|m: int| 0 <= m < x.len() && corridors::vector(#[trigger] x[m]) == o;
                assert(a[m + 1] == x[m]);
                assert(is_less(a[0], a[m + 1]));
                assert(corridors::holds(a, o));
                let n = choose|n: int| 0 <= n < b.len() && corridors::vector(#[trigger] b[n]) == o;
                assert(n > 0);
                assert(y[n - 1] == b[n]);
            }
            if corridors::holds(y, o) {
                let m = choose|m: int| 0 <= m < y.len() && corridors::vector(#[trigger] y[m]) == o;
                assert(b[m + 1] == y[m]);
                assert(is_less(b[0], b[m + 1]));
                assert(corridors::holds(b, o));
                assert(corridors::holds(a, o));
                let n = choose|n: int| 0 <= n < a.len() && corridors::vector(#[trigger] a[n]) == o;
                assert(n > 0);
                assert(x[n - 1] == a[n]);
            }
        }
        lemma_ascending_same(x, y);
        assert(a =~= seq![a[0]] + x);
        assert(b =~= seq![b[0]] + y);
    }
}

proof fn lemma_standing(p: &PlacementProblem, assigned: Seq<Option<(i128, i128)>>, v: int, list: Seq<(i128, i128)>)
    requires
        ascending(list),
        is_bound(p, assigned, v) ==> forall|o: Vector| #[trigger]
            corridors::holds(list, o) <==> can_stand(p, assigned, v, o),
        !is_bound(p, assigned, v) ==> list.len() == 0,
    ensures
        list.len() == standing(p, assigned, v).len(),
        list == stand_list(p, assigned, v),
{
    let origins = placement::vectors(list);
    assert forall|i: int, j: int| 0 <= i < origins.len() && 0 <= j < origins.len() && i != j implies origins[i]
        != origins[j] by {
        if i < j {
            assert(is_less(list[i], list[j]));
        } else {
            assert(is_less(list[j], list[i]));
        }
    }
    origins.unique_seq_to_set();
    assert forall|o: Vector| origins.to_set().contains(o) <==> standing(p, assigned, v).contains(o) by {
        if origins.contains(o) {
            let i = choose|i: int| 0 <= i < origins.len() && origins[i] == o;
            assert(corridors::vector(list[i]) == o);
            assert(corridors::holds(list, o));
        }
        if standing(p, assigned, v).contains(o) {
            assert(corridors::holds(list, o));
            let i = choose|i: int| 0 <= i < list.len() && corridors::vector(#[trigger] list[i]) == o;
            assert(origins[i] == o);
        }
    }
    assert(origins.to_set() =~= standing(p, assigned, v));
    assert forall|o: Vector| #[trigger] corridors::holds(list, o) <==> standing(p, assigned, v).contains(o) by {}
    assert(is_stand_list(p, assigned, v, list));
    lemma_ascending_same(list, stand_list(p, assigned, v));
}

/// The origins at which a piece can stand, in ascending order; none if it is not linked to a
/// piece that was set.
fn candidate_origins(
    p: &PlacementProblem,
    incident: &Vec<Vec<usize>>,
    assigned: &Origins,
    v: usize,
    far: Ghost<int>,
) -> (found: (bool, Vec<(i128, i128)>))
    requires
        p.wf(),
        are_incident(p, incident@),
        assigned@.len() == p.nodes,
        v < p.nodes,
        assigned@[v as int] is None,
        0 <= far@ <= 0xf_ffff_ffff_ffff_ffff_ffff_ffff,
        forall|u: int| 0 <= u < p.nodes ==> placement::within(#[trigger] assigned@[u], far@),
    ensures
        found.0 == is_bound(p, assigned@, v as int),
        found.0 ==> forall|o: Vector| #[trigger]
            corridors::holds(found.1@, o) <==> can_stand(p, assigned@, v as int, o),
        !found.0 ==> found.1@.len() == 0,
        corridors::short(found.1@, far@ + p.limit),
        ascending(found.1@),
        found.1@.len() == standing(p, assigned@, v as int).len(),
        found.1@ == stand_list(p, assigned@, v as int),
{
    let mut bound: bool = false;
    let mut options: Vec<(i128, i128)> = Vec::new();
    let mut i: usize = 0;
    while i < incident[v].len()
        invariant
            p.wf(),
            are_incident(p, incident@),
            assigned@.len() == p.nodes,
            v < p.nodes,
            assigned@[v as int] is None,
            0 <= far@ <= 0xf_ffff_ffff_ffff_ffff_ffff_ffff,
            forall|u: int| 0 <= u < p.nodes ==> placement::within(#[trigger] assigned@[u], far@),
            i <= incident@[v as int]@.len(),
            bound <==> exists|j: int|
                0 <= j < i && binds(p, assigned@, #[trigger] incident@[v as int]@[j] as int, v as int),
            !bound ==> options@.len() == 0,
            ascending(options@),
            bound ==> forall|o: Vector| #[trigger]
                corridors::holds(options@, o) <==> forall|j: int|
                    0 <= j < i && binds(p, assigned@, #[trigger] incident@[v as int]@[j] as int, v as int)
                        ==> permits(p, assigned@, incident@[v as int]@[j] as int, v as int, o),
            corridors::short(options@, far@ + p.limit),
        decreases incident@[v as int]@.len() - i,
    {
        let l: usize = incident[v][i];
        assert(incident@[v as int]@[i as int] < p.links@.len() && p.touches(l as int, v as int));
        assert(p.link_wf(p.links@[l as int]));
        let other: usize = if p.links[l].to == v {
            p.links[l].from
        } else {
            p.links[l].to
        };
        let ghost before = options@;
        let ghost was_bound = bound;
        if assigned[other].is_some() {
            assert(binds(p, assigned@, l as int, v as int));
            let set: Vec<(i128, i128)> = link_origins(p, assigned, l, v, far);
            if bound {
                options = keep_common(options, &set, Ghost(far@ + p.limit));
            } else {
                options = set;
                bound = true;
            }
            proof {
                assert forall|o: Vector| #[trigger]
                    corridors::holds(options@, o) <==> forall|j: int|
                        0 <= j < i + 1 && binds(p, assigned@, #[trigger] incident@[v as int]@[j] as int, v as int)
                            ==> permits(p, assigned@, incident@[v as int]@[j] as int, v as int, o) by {
                    assert(corridors::holds(set@, o) <==> permits(p, assigned@, l as int, v as int, o));
                    if was_bound {
                        assert(corridors::holds(before, o) <==> forall|j: int|
                            0 <= j < i && binds(p, assigned@, #[trigger] incident@[v as int]@[j] as int, v as int)
                                ==> permits(p, assigned@, incident@[v as int]@[j] as int, v as int, o));
                        assert(corridors::holds(options@, o) <==> corridors::holds(before, o) && corridors::holds(
                            set@,
                            o,
                        ));
                    }
                    if corridors::holds(options@, o) {
                        assert forall|j: int|
                            0 <= j < i + 1 && binds(
                                p,
                                assigned@,
                                #[trigger] incident@[v as int]@[j] as int,
                                v as int,
                            ) implies permits(p, assigned@, incident@[v as int]@[j] as int, v as int, o) by {}
                    }
                    if forall|j: int|
                        0 <= j < i + 1 && binds(p, assigned@, #[trigger] incident@[v as int]@[j] as int, v as int)
                            ==> permits(p, assigned@, incident@[v as int]@[j] as int, v as int, o) {
                        assert(binds(p, assigned@, incident@[v as int]@[i as int] as int, v as int));
                    }
                }
                assert(binds(p, assigned@, incident@[v as int]@[i as int] as int, v as int));
            }
        } else {
            assert(!binds(p, assigned@, incident@[v as int]@[i as int] as int, v as int));
        }
        i += 1;
    }
    proof {
        if is_bound(p, assigned@, v as int) {
            let l = choose|l: int| 0 <= l < p.links@.len() && #[trigger] binds(p, assigned@, l, v as int);
            assert(p.touches(l, v as int));
            assert(link_listed(incident@[v as int]@, l));
            let j = choose|j: int|
                0 <= j < incident@[v as int]@.len() && #[trigger] incident@[v as int]@[j] == l;
            assert(binds(p, assigned@, incident@[v as int]@[j] as int, v as int));
        }
        if bound {
            let j = choose|j: int|
                0 <= j < i && binds(p, assigned@, #[trigger] incident@[v as int]@[j] as int, v as int);
            assert(binds(p, assigned@, incident@[v as int]@[j] as int, v as int));
            assert forall|o: Vector| #[trigger]
                corridors::holds(options@, o) <==> can_stand(p, assigned@, v as int, o) by {
                if corridors::holds(options@, o) {
                    assert forall|l: int|
                        0 <= l < p.links@.len() && #[trigger] binds(p, assigned@, l, v as int) implies permits(
                        p,
                        assigned@,
                        l,
                        v as int,
                        o,
                    ) by {
                        assert(p.touches(l, v as int));
                        assert(link_listed(incident@[v as int]@, l));
                        let j = choose|j: int|
                            0 <= j < incident@[v as int]@.len() && #[trigger] incident@[v as int]@[j] == l;
                        assert(binds(p, assigned@, incident@[v as int]@[j] as int, v as int));
                    }
                }
                if can_stand(p, assigned@, v as int, o) {
                    assert forall|j: int|
                        0 <= j < i && binds(
                            p,
                            assigned@,
                            #[trigger] incident@[v as int]@[j] as int,
                            v as int,
                        ) implies permits(p, assigned@, incident@[v as int]@[j] as int, v as int, o) by {}
                }
            }
        }
        lemma_standing(p, assigned@, v as int, options@);
    }
    (bound, options)
}

/// One of the first `k` origins of the list.
spec fn taken(list: Seq<(i128, i128)>, o: (i128, i128), k: int) -> bool {
    exists|m: int| 0 <= m < k && #[trigger] list[m] == o
}

/// The vectors of a list that are in another.
fn keep_common(list: Vec<(i128, i128)>, other: &Vec<(i128, i128)>, far: Ghost<int>) -> (kept: Vec<(i128, i128)>)
    requires
        corridors::short(list@, far@),
    ensures
        forall|o: Vector| #[trigger]
            corridors::holds(kept@, o) <==> corridors::holds(list@, o) && corridors::holds(other@, o),
        corridors::short(kept@, far@),
        ascending(list@) ==> ascending(kept@),
{
    let mut kept: Vec<(i128, i128)> = Vec::new();
    let mut i: usize = 0;
    while i < list.len()
        invariant
            corridors::short(list@, far@),
            corridors::short(kept@, far@),
            i <= list@.len(),
            ascending(list@) ==> ascending(kept@),
            forall|j: int| 0 <= j < kept@.len() ==> taken(list@, #[trigger] kept@[j], i as int),
            forall|o: Vector| #[trigger]
                corridors::holds(kept@, o) <==> corridors::holds(list@.take(i as int), o) && corridors::holds(
                    other@,
                    o,
                ),
        decreases list.len() - i,
    {
        proof {
            assert(list@.take(i + 1) =~= list@.take(i as int).push(list@[i as int]));
            corridors::lemma_holds_push(list@.take(i as int), list@[i as int]);
            corridors::lemma_holds_push(kept@, list@[i as int]);
            assert(-far@ <= list@[i as int].0 <= far@);
        }
        let ghost before = kept@;
        if has_vector(other, list[i]) {
            kept.push(list[i]);
        }
        proof {
            assert forall|j: int| 0 <= j < kept@.len() implies taken(list@, #[trigger] kept@[j], i + 1) by {
                if j < before.len() {
                    assert(kept@[j] == before[j]);
                    assert(taken(list@, before[j], i as int));
                } else {
                    assert(kept@[j] == list@[i as int]);
                }
            }
            if ascending(list@) {
                assert forall|j: int, k: int| #![trigger kept@[j], kept@[k]] 0 <= j < k < kept@.len() implies is_less(
                    kept@[j],
                    kept@[k],
                ) by {
                    assert(kept@[j] == before[j]);
                    if k < before.len() {
                        assert(kept@[k] == before[k]);
                    } else {
                        assert(taken(list@, before[j], i as int));
                        let m = choose|m: int| 0 <= m < i && #[trigger] list@[m] == before[j];
                        assert(is_less(list@[m], list@[i as int]));
                    }
                }
            }
        }
        i += 1;
    }
    assert(list@.take(i as int) =~= list@);
    kept
}

/// How far away the origins that were set can be.
proof fn lemma_far(p: &PlacementProblem, assigned: Seq<Option<(i128, i128)>>)
    requires
        p.wf(),
        assigned.len() == p.nodes,
    ensures
        0 <= filled(assigned) <= p.nodes,
        0 <= filled(assigned) * p.limit <= 0xf_ffff_ffff_ffff_ffff_ffff_ffff,
        filled(assigned) * p.limit + p.limit <= 0xf_ffff_ffff_ffff_ffff_ffff_ffff,
{
    lemma_open_bound(assigned, assigned.len());
    let n = filled(assigned);
    placement::lemma_limits(p);
    assert(0 <= n * p.limit && n * p.limit + p.limit <= 0xf_ffff_ffff_ffff_ffff_ffff_ffff) by (nonlinear_arith)
        requires
            0 <= n <= p.nodes,
            p.nodes >= 1,
            16 * p.nodes * p.limit <= 0x7f_ffff_ffff_ffff_ffff_ffff_ffff,
            p.limit >= 1,
    ;
}

/// Setting a piece where it can stand.
proof fn lemma_set(p: &PlacementProblem, assigned: Seq<Option<(i128, i128)>>, v: int, o: (i128, i128))
    requires
        p.wf(),
        origins_wf(p, assigned),
        0 <= v < p.nodes,
        assigned[v] is None,
        can_stand(p, assigned, v, corridors::vector(o)),
        placement::within(Some(o), filled(assigned) * p.limit + p.limit),
    ensures
        origins_wf(p, assigned.update(v, Some(o))),
        search::open_count(assigned.update(v, Some(o)), p.nodes as nat) + 1 == search::open_count(
            assigned,
            p.nodes as nat,
        ),
{
    let after = assigned.update(v, Some(o));
    search::lemma_open_update(assigned, v, o, p.nodes as nat);
    let n = filled(assigned);
    assert(filled(after) == n + 1);
    assert((n + 1) * p.limit == n * p.limit + p.limit) by (nonlinear_arith);
    assert forall|u: int| 0 <= u < after.len() implies placement::within(
        #[trigger] after[u],
        filled(after) * p.limit,
    ) by {
        if u != v {
            assert(placement::within(assigned[u], n * p.limit));
        }
    }
    assert forall|l: int| 0 <= l < p.links@.len() implies link_consistent(#[trigger] p.links@[l], after) by {
        let link = p.links@[l];
        assert(p.link_wf(link));
        assert(link_consistent(link, assigned));
        if link.to == v && assigned[link.from as int] is Some {
            assert(binds(p, assigned, l, v));
        }
        if link.from == v && assigned[link.to as int] is Some {
            assert(binds(p, assigned, l, v));
        }
    }
}

/// In a placement that agrees with the origins that were set, every piece stands where it can.
proof fn lemma_stands(p: &PlacementProblem, assigned: Seq<Option<(i128, i128)>>, t: Seq<Vector>, v: int)
    requires
        p.wf(),
        assigned.len() == p.nodes,
        p.coherent(t),
        agrees(assigned, t),
        0 <= v < p.nodes,
    ensures
        can_stand(p, assigned, v, t[v]),
{
    assert forall|l: int| 0 <= l < p.links@.len() && #[trigger] binds(p, assigned, l, v) implies permits(
        p,
        assigned,
        l,
        v,
        t[v],
    ) by {
        let link = p.links@[l];
        assert(p.link_wf(link));
        assert(p.link_holds(t, link));
        if link.to == v {
            assert(assigned[link.from as int] is Some);
        } else {
            assert(assigned[link.to as int] is Some);
        }
    }
}

/// The origins that follow from those that were set: whether every piece that is linked to one
/// that was set can stand somewhere, whether any were set, and all that are set.
pub struct ForcedOrigins {
    pub possible: bool,
    pub progress: bool,
    pub origins: Seq<Option<(i128, i128)>>,
}

/// The pieces from `v` on that can stand at one origin only are set, one after the other.
pub open spec fn force_pass(
    p: &PlacementProblem,
    assigned: Seq<Option<(i128, i128)>>,
    v: int,
    progress: bool,
) -> ForcedOrigins
    decreases p.nodes - v,
{
    if v >= p.nodes {
        ForcedOrigins { possible: true, progress, origins: assigned }
    } else if assigned[v] is Some || !is_bound(p, assigned, v) {
        force_pass(p, assigned, v + 1, progress)
    } else {
        let list = stand_list(p, assigned, v);
        if list.len() == 0 {
            ForcedOrigins { possible: false, progress, origins: assigned }
        } else if list.len() == 1 {
            force_pass(p, assigned.update(v, Some(list[0])), v + 1, true)
        } else {
            force_pass(p, assigned, v + 1, progress)
        }
    }
}

/// The pieces that can stand at one origin only are set, until there are none.
pub open spec fn force_origins(p: &PlacementProblem, assigned: Seq<Option<(i128, i128)>>) -> ForcedOrigins
    decreases search::open_count(assigned, p.nodes as nat),
{
    let passed = force_pass(p, assigned, 0, false);
    if !passed.possible || !passed.progress {
        passed
    } else if search::open_count(passed.origins, p.nodes as nat) < search::open_count(assigned, p.nodes as nat) {
        force_origins(p, passed.origins)
    } else {
        passed
    }
}

/// Sets the pieces that can stand at one origin only, until there are none. Whether every
/// piece that is linked to one that was set can stand somewhere.
fn propagate_forced(p: &PlacementProblem, incident: &Vec<Vec<usize>>, assigned: &mut Origins) -> (possible: bool)
    requires
        p.wf(),
        are_incident(p, incident@),
        origins_wf(p, old(assigned)@),
    ensures
        possible == force_origins(p, old(assigned)@).possible,
        final(assigned)@ == force_origins(p, old(assigned)@).origins,
        origins_wf(p, final(assigned)@),
        search::open_count(final(assigned)@, p.nodes as nat) <= search::open_count(old(assigned)@, p.nodes as nat),
        search::extends(old(assigned)@, final(assigned)@),
        possible ==> forall|t: Seq<Vector>| #[trigger]
            p.coherent(t) && agrees(old(assigned)@, t) ==> agrees(final(assigned)@, t),
        !possible ==> hopeless(p, old(assigned)@),
{
    let ghost entry = assigned@;
    let mut progress: bool = true;
    while progress
        invariant
            p.wf(),
            are_incident(p, incident@),
            entry == old(assigned)@,
            origins_wf(p, assigned@),
            progress ==> force_origins(p, assigned@) == force_origins(p, entry),
            !progress ==> force_origins(p, entry).possible && force_origins(p, entry).origins == assigned@,
            search::open_count(assigned@, p.nodes as nat) <= search::open_count(entry, p.nodes as nat),
            search::extends(entry, assigned@),
            forall|t: Seq<Vector>| #[trigger] p.coherent(t) && agrees(entry, t) ==> agrees(assigned@, t),
        decreases search::open_count(assigned@, p.nodes as nat), progress as int,
    {
        progress = false;
        let ghost held = assigned@;
        let ghost whole = force_pass(p, held, 0, false);
        let mut v: usize = 0;
        while v < p.nodes
            invariant
                p.wf(),
                are_incident(p, incident@),
                entry == old(assigned)@,
                v <= p.nodes,
                origins_wf(p, assigned@),
                force_origins(p, held) == force_origins(p, entry),
                whole == force_pass(p, held, 0, false),
                force_pass(p, assigned@, v as int, progress) == whole,
                search::open_count(assigned@, p.nodes as nat) <= search::open_count(entry, p.nodes as nat),
                search::extends(entry, assigned@),
                forall|t: Seq<Vector>| #[trigger] p.coherent(t) && agrees(entry, t) ==> agrees(assigned@, t),
                progress ==> search::open_count(assigned@, p.nodes as nat) < search::open_count(
                    held,
                    p.nodes as nat,
                ),
                !progress ==> assigned@ == held,
            decreases p.nodes - v,
        {
            if assigned[v].is_none() {
                proof {
                    lemma_far(p, assigned@);
                }
                let (bound, options): (bool, Vec<(i128, i128)>) = candidate_origins(
                    p,
                    incident,
                    assigned,
                    v,
                    Ghost(filled(assigned@) * p.limit),
                );
                if bound {
                    if options.len() == 0 {
                        proof {
                            assert forall|t: Seq<Vector>| #[trigger] p.coherent(t) implies !agrees(entry, t) by {
                                if agrees(entry, t) {
                                    lemma_stands(p, assigned@, t, v as int);
                                    assert(corridors::holds(options@, t[v as int]));
                                }
                            }
                        }
                        return false;
                    }
                    if options.len() == 1 {
                        let o: (i128, i128) = options[0];
                        let ghost before = assigned@;
                        proof {
                            assert(options@[0] == o);
                            assert(corridors::holds(options@, corridors::vector(o)));
                            assert(-(filled(before) * p.limit + p.limit) <= options@[0].0);
                            lemma_set(p, before, v as int, o);
                        }
                        assigned.set(v, Some(o));
                        proof {
                            assert forall|t: Seq<Vector>| #[trigger]
                                p.coherent(t) && agrees(entry, t) implies agrees(assigned@, t) by {
                                assert(agrees(before, t));
                                lemma_stands(p, before, t, v as int);
                                assert(corridors::holds(options@, t[v as int]));
                                assert forall|u: int| 0 <= u < assigned@.len() implies (#[trigger] assigned@[u] matches Some(
                                    q,
                                ) ==> t[u] == corridors::vector(q)) by {
                                    if u != v {
                                        assert(assigned@[u] == before[u]);
                                    }
                                }
                            }
                            assert forall|u: int| 0 <= u < entry.len() && (#[trigger] entry[u]) is Some implies assigned@[u]
                                == entry[u] by {
                                assert(before[u] == entry[u]);
                            }
                        }
                        progress = true;
                    }
                }
            }
            v += 1;
        }
    }
    true
}

/// Every piece that is linked to one that was set can stand somewhere.
pub open spec fn can_go_on(p: &PlacementProblem, assigned: Seq<Option<(i128, i128)>>) -> bool {
    forall|v: int| 0 <= v < p.nodes ==> #[trigger] has_room(p, assigned, v)
}

/// The piece was set, is linked to none that was, or can stand somewhere.
pub open spec fn has_room(p: &PlacementProblem, assigned: Seq<Option<(i128, i128)>>, v: int) -> bool {
    assigned[v] is Some || !is_bound(p, assigned, v) || stand_list(p, assigned, v).len() > 0
}

/// Whether every piece that is linked to one that was set can stand somewhere.
fn forward_check(p: &PlacementProblem, incident: &Vec<Vec<usize>>, assigned: &Origins) -> (possible: bool)
    requires
        p.wf(),
        are_incident(p, incident@),
        origins_wf(p, assigned@),
    ensures
        possible == can_go_on(p, assigned@),
        !possible ==> hopeless(p, assigned@),
{
    let mut v: usize = 0;
    while v < p.nodes
        invariant
            p.wf(),
            are_incident(p, incident@),
            origins_wf(p, assigned@),
            v <= p.nodes,
            forall|u: int| 0 <= u < v ==> #[trigger] has_room(p, assigned@, u),
        decreases p.nodes - v,
    {
        if assigned[v].is_none() {
            proof {
                lemma_far(p, assigned@);
            }
            let (bound, options): (bool, Vec<(i128, i128)>) = candidate_origins(
                p,
                incident,
                assigned,
                v,
                Ghost(filled(assigned@) * p.limit),
            );
            if bound && options.len() == 0 {
                proof {
                    assert(!has_room(p, assigned@, v as int));
                    assert forall|t: Seq<Vector>| #[trigger] p.coherent(t) implies !agrees(assigned@, t) by {
                        if agrees(assigned@, t) {
                            lemma_stands(p, assigned@, t, v as int);
                            assert(corridors::holds(options@, t[v as int]));
                        }
                    }
                }
                return false;
            }
        }
        v += 1;
    }
    true
}

/// How many of the first `k` links of a row lead to a piece from pieces that were set.
pub open spec fn set_links(
    p: &PlacementProblem,
    row: Seq<usize>,
    assigned: Seq<Option<(i128, i128)>>,
    v: int,
    k: nat,
) -> nat
    decreases k,
{
    if k == 0 {
        0
    } else {
        set_links(p, row, assigned, v, (k - 1) as nat) + (if assigned[other_end(
            p.links@[row[k - 1] as int],
            v,
        )] is Some {
            1nat
        } else {
            0
        })
    }
}

/// How many links lead to a piece, and how many of them from pieces that were set.
fn count_links(p: &PlacementProblem, incident: &Vec<Vec<usize>>, assigned: &Origins, v: usize) -> (counts: (usize, usize))
    requires
        p.wf(),
        are_incident(p, incident@),
        assigned@.len() == p.nodes,
        v < p.nodes,
    ensures
        counts.0 == set_links(p, incident@[v as int]@, assigned@, v as int, incident@[v as int]@.len()),
        counts.1 == incident@[v as int]@.len(),
{
    let mut set: usize = 0;
    let mut i: usize = 0;
    while i < incident[v].len()
        invariant
            p.wf(),
            are_incident(p, incident@),
            assigned@.len() == p.nodes,
            v < p.nodes,
            set <= i <= incident@[v as int]@.len(),
            set == set_links(p, incident@[v as int]@, assigned@, v as int, i as nat),
        decreases incident@[v as int]@.len() - i,
    {
        let l: usize = incident[v][i];
        assert(incident@[v as int]@[i as int] < p.links@.len());
        assert(p.link_wf(p.links@[l as int]));
        let other: usize = if p.links[l].to == v {
            p.links[l].from
        } else {
            p.links[l].to
        };
        if assigned[other].is_some() {
            set += 1;
        }
        i += 1;
    }
    (set, incident[v].len())
}

/// The piece at the other end of a link.
pub open spec fn other_end(link: Link, v: int) -> int {
    if link.to == v {
        link.from as int
    } else {
        link.to as int
    }
}

/// The number of origins that are left for the pieces that the first `k` links of the row join
/// to a piece, and that were not set.
pub open spec fn origins_left(
    p: &PlacementProblem,
    row: Seq<usize>,
    assigned: Seq<Option<(i128, i128)>>,
    v: int,
    k: nat,
) -> nat
    decreases k,
{
    if k == 0 {
        0
    } else {
        let other = other_end(p.links@[row[k - 1] as int], v);
        origins_left(p, row, assigned, v, (k - 1) as nat) + (if assigned[other] is None {
            standing(p, assigned, other).len()
        } else {
            0
        })
    }
}

/// The number of origins that are left for the pieces linked to a piece when it is set, or the
/// greatest machine number if there are more.
fn future_options(p: &PlacementProblem, incident: &Vec<Vec<usize>>, trial: &Origins, v: usize) -> (total: usize)
    requires
        p.wf(),
        are_incident(p, incident@),
        origins_wf(p, trial@),
        v < p.nodes,
    ensures
        ({
            let row = incident@[v as int]@;
            let left = origins_left(p, row, trial@, v as int, row.len());
            total == if left <= usize::MAX {
                left as int
            } else {
                usize::MAX as int
            }
        }),
{
    let mut total: usize = 0;
    let mut i: usize = 0;
    while i < incident[v].len()
        invariant
            p.wf(),
            are_incident(p, incident@),
            origins_wf(p, trial@),
            v < p.nodes,
            i <= incident@[v as int]@.len(),
            ({
                let left = origins_left(p, incident@[v as int]@, trial@, v as int, i as nat);
                total == if left <= usize::MAX {
                    left as int
                } else {
                    usize::MAX as int
                }
            }),
        decreases incident@[v as int]@.len() - i,
    {
        let l: usize = incident[v][i];
        assert(incident@[v as int]@[i as int] < p.links@.len());
        assert(p.link_wf(p.links@[l as int]));
        let other: usize = if p.links[l].to == v {
            p.links[l].from
        } else {
            p.links[l].to
        };
        assert(other == other_end(p.links@[incident@[v as int]@[i as int] as int], v as int));
        if trial[other].is_none() {
            proof {
                lemma_far(p, trial@);
            }
            let (_, options): (bool, Vec<(i128, i128)>) = candidate_origins(
                p,
                incident,
                trial,
                other,
                Ghost(filled(trial@) * p.limit),
            );
            total = match total.checked_add(options.len()) {
                Some(sum) => sum,
                None => usize::MAX,
            };
        }
        i += 1;
    }
    total
}

/// The number of origins that are left for the pieces linked to a piece, or the greatest machine
/// number if there are more.
pub open spec fn score_of(p: &PlacementProblem, assigned: Seq<Option<(i128, i128)>>, v: int) -> usize {
    let row = incident_row(p, v, p.links@.len());
    let left = origins_left(p, row, assigned, v, row.len());
    if left <= usize::MAX {
        left as usize
    } else {
        usize::MAX
    }
}

/// Origins, with the number that each of them leaves to others.
pub struct Scored {
    pub origins: Seq<(i128, i128)>,
    pub scores: Seq<usize>,
}

/// The first `k` origins of a piece, those that leave the most to others first, and of those that
/// leave the same number the earlier first.
pub open spec fn scored_of(
    p: &PlacementProblem,
    assigned: Seq<Option<(i128, i128)>>,
    v: int,
    options: Seq<(i128, i128)>,
    k: nat,
) -> Scored
    decreases k,
{
    if k == 0 {
        Scored { origins: Seq::empty(), scores: Seq::empty() }
    } else {
        let earlier = scored_of(p, assigned, v, options, (k - 1) as nat);
        let score = score_of(p, assigned.update(v, Some(options[k - 1])), v);
        let at = repairs::count_slot(earlier.scores, score, earlier.scores.len()) as int;
        Scored { origins: earlier.origins.insert(at, options[k - 1]), scores: earlier.scores.insert(at, score) }
    }
}

/// The origins of a piece, those that leave the most to others first.
fn order_candidate_origins(
    p: &PlacementProblem,
    incident: &Vec<Vec<usize>>,
    assigned: &Origins,
    v: usize,
    options: &Vec<(i128, i128)>,
) -> (ordered: Vec<(i128, i128)>)
    requires
        p.wf(),
        are_rows(p, incident@),
        origins_wf(p, assigned@),
        v < p.nodes,
        assigned@[v as int] is None,
        forall|o: Vector| #[trigger] corridors::holds(options@, o) ==> can_stand(p, assigned@, v as int, o),
        corridors::short(options@, filled(assigned@) * p.limit + p.limit),
    ensures
        ordered@ == scored_of(p, assigned@, v as int, options@, options@.len()).origins,
        forall|o: Vector| #[trigger] corridors::holds(ordered@, o) <==> corridors::holds(options@, o),
        corridors::short(ordered@, filled(assigned@) * p.limit + p.limit),
{
    let ghost far = filled(assigned@) * p.limit + p.limit;
    let mut ordered: Vec<(i128, i128)> = Vec::new();
    let mut scores: Vec<usize> = Vec::new();
    let mut i: usize = 0;
    proof {
        assert(ordered@ =~= Seq::<(i128, i128)>::empty());
        assert(scores@ =~= Seq::<usize>::empty());
    }
    while i < options.len()
        invariant
            p.wf(),
            are_rows(p, incident@),
            origins_wf(p, assigned@),
            v < p.nodes,
            assigned@[v as int] is None,
            forall|o: Vector| #[trigger] corridors::holds(options@, o) ==> can_stand(p, assigned@, v as int, o),
            far == filled(assigned@) * p.limit + p.limit,
            corridors::short(options@, far),
            corridors::short(ordered@, far),
            i <= options@.len(),
            ordered@.len() == scores@.len(),
            (Scored { origins: ordered@, scores: scores@ }) == scored_of(
                p,
                assigned@,
                v as int,
                options@,
                i as nat,
            ),
            forall|o: Vector| #[trigger] corridors::holds(ordered@, o) <==> corridors::holds(options@.take(i as int), o),
        decreases options.len() - i,
    {
        let o: (i128, i128) = options[i];
        proof {
            assert(-far <= options@[i as int].0 <= far);
            assert(corridors::holds(options@, corridors::vector(options@[i as int])));
            lemma_set(p, assigned@, v as int, o);
        }
        let mut trial: Origins = copy_choices(assigned);
        trial.set(v, Some(o));
        let score: usize = future_options(p, incident, &trial, v);
        assert(score == score_of(p, assigned@.update(v as int, Some(o)), v as int));
        let mut at: usize = scores.len();
        while at > 0 && scores[at - 1] < score
            invariant
                at <= scores@.len(),
                repairs::count_slot(scores@, score, scores@.len()) == repairs::count_slot(scores@, score, at as nat),
            decreases at,
        {
            at -= 1;
        }
        let ghost before = ordered@;
        ordered.insert(at, o);
        scores.insert(at, score);
        proof {
            corridors::lemma_holds_insert(before, at as int, o);
            assert(options@.take(i + 1) =~= options@.take(i as int).push(o));
            corridors::lemma_holds_push(options@.take(i as int), o);
            assert forall|j: int| 0 <= j < ordered@.len() implies -far <= (#[trigger] ordered@[j]).0 <= far && -far
                <= ordered@[j].1 <= far by {
                if j < at {
                    assert(ordered@[j] == before[j]);
                } else if j > at {
                    assert(ordered@[j] == before[j - 1]);
                }
            }
        }
        i += 1;
    }
    assert(options@.take(i as int) =~= options@);
    ordered
}

/// Why a search ended without an answer.
#[derive(Debug, Clone, Copy)]
pub enum SearchStop {
    /// More states than allowed were looked at.
    LimitExceeded { limit: usize },
    /// A piece is linked to no piece that was set.
    Disconnected,
}

/// No placement agrees with any of the states.
pub open spec fn all_hopeless(p: &PlacementProblem, dead: Seq<Origins>) -> bool {
    forall|i: int| 0 <= i < dead.len() ==> hopeless(p, (#[trigger] dead[i])@)
}

/// What to set next.
struct Choice {
    piece: usize,
    options: Vec<(i128, i128)>,
}

/// The piece with the fewest origins, or that some piece has none.
enum Pick {
    Next(Choice),
    DeadEnd,
    Nothing,
}

/// A piece goes before another: it has fewer origins, or as many and more links from pieces that
/// were set, or as many of both and more links.
pub open spec fn goes_before(p: &PlacementProblem, assigned: Seq<Option<(i128, i128)>>, v: int, other: int) -> bool {
    let a = stand_list(p, assigned, v).len();
    let b = stand_list(p, assigned, other).len();
    let row = incident_row(p, v, p.links@.len());
    let other_row = incident_row(p, other, p.links@.len());
    let set = set_links(p, row, assigned, v, row.len());
    let other_set = set_links(p, other_row, assigned, other, other_row.len());
    a < b || (a == b && (set > other_set || (set == other_set && row.len() > other_row.len())))
}

/// Of the first `k` pieces, those that were not set and are linked to one that was, the one that
/// goes before the others; the first of several.
pub open spec fn pick_of(p: &PlacementProblem, assigned: Seq<Option<(i128, i128)>>, k: nat) -> Option<usize>
    decreases k,
{
    if k == 0 {
        None
    } else {
        let best = pick_of(p, assigned, (k - 1) as nat);
        if assigned[k - 1] is Some || !is_bound(p, assigned, k - 1) {
            best
        } else {
            match best {
                Some(b) => if goes_before(p, assigned, k - 1, b as int) {
                    Some((k - 1) as usize)
                } else {
                    best
                },
                None => Some((k - 1) as usize),
            }
        }
    }
}

/// The piece with the fewest origins; of several, the one with the most links from pieces
/// that were set, then the one with the most links.
fn pick_piece(p: &PlacementProblem, incident: &Vec<Vec<usize>>, assigned: &Origins) -> (pick: Pick)
    requires
        p.wf(),
        are_rows(p, incident@),
        origins_wf(p, assigned@),
    ensures
        match pick {
            Pick::Next(choice) => {
                &&& can_go_on(p, assigned@)
                &&& pick_of(p, assigned@, p.nodes as nat) == Some(choice.piece)
                &&& choice.options@ == stand_list(p, assigned@, choice.piece as int)
                &&& choice.piece < p.nodes
                &&& assigned@[choice.piece as int] is None
                &&& forall|o: Vector| #[trigger]
                    corridors::holds(choice.options@, o) <==> can_stand(p, assigned@, choice.piece as int, o)
                &&& corridors::short(choice.options@, filled(assigned@) * p.limit + p.limit)
            },
            Pick::DeadEnd => !can_go_on(p, assigned@) && hopeless(p, assigned@),
            Pick::Nothing => {
                &&& can_go_on(p, assigned@)
                &&& pick_of(p, assigned@, p.nodes as nat) is None
                &&& forall|v: int|
                    0 <= v < p.nodes && (#[trigger] assigned@[v]) is None ==> !is_bound(p, assigned@, v)
            },
        },
{
    let mut best: Option<Choice> = None;
    let mut best_set: usize = 0;
    let mut best_degree: usize = 0;
    let mut v: usize = 0;
    while v < p.nodes
        invariant
            p.wf(),
            are_rows(p, incident@),
            origins_wf(p, assigned@),
            v <= p.nodes,
            forall|u: int| 0 <= u < v ==> #[trigger] has_room(p, assigned@, u),
            match best {
                Some(choice) => {
                    &&& pick_of(p, assigned@, v as nat) == Some(choice.piece)
                    &&& choice.options@ == stand_list(p, assigned@, choice.piece as int)
                    &&& best_degree == incident_row(p, choice.piece as int, p.links@.len()).len()
                    &&& best_set == set_links(
                        p,
                        incident_row(p, choice.piece as int, p.links@.len()),
                        assigned@,
                        choice.piece as int,
                        best_degree as nat,
                    )
                    &&& choice.piece < p.nodes
                    &&& assigned@[choice.piece as int] is None
                    &&& forall|o: Vector| #[trigger]
                        corridors::holds(choice.options@, o) <==> can_stand(p, assigned@, choice.piece as int, o)
                    &&& corridors::short(choice.options@, filled(assigned@) * p.limit + p.limit)
                },
                None => pick_of(p, assigned@, v as nat) is None && forall|u: int|
                    0 <= u < v && (#[trigger] assigned@[u]) is None ==> !is_bound(p, assigned@, u),
            },
        decreases p.nodes - v,
    {
        if assigned[v].is_none() {
            proof {
                lemma_far(p, assigned@);
            }
            let (bound, options): (bool, Vec<(i128, i128)>) = candidate_origins(
                p,
                incident,
                assigned,
                v,
                Ghost(filled(assigned@) * p.limit),
            );
            if bound {
                if options.len() == 0 {
                    proof {
                        assert(!has_room(p, assigned@, v as int));
                        assert forall|t: Seq<Vector>| #[trigger] p.coherent(t) implies !agrees(assigned@, t) by {
                            if agrees(assigned@, t) {
                                lemma_stands(p, assigned@, t, v as int);
                                assert(corridors::holds(options@, t[v as int]));
                            }
                        }
                    }
                    return Pick::DeadEnd;
                }
                let (set, degree): (usize, usize) = count_links(p, incident, assigned, v);
                assert(incident@[v as int]@ == incident_row(p, v as int, p.links@.len()));
                assert(best matches Some(choice) ==> goes_before(p, assigned@, v as int, choice.piece as int) == (
                options@.len() < choice.options@.len() || (options@.len() == choice.options@.len() && (set > best_set || (
                set == best_set && degree > best_degree)))));
                let better: bool = match &best {
                    None => true,
                    Some(choice) => options.len() < choice.options.len() || (options.len() == choice.options.len()
                        && (set > best_set || (set == best_set && degree > best_degree))),
                };
                if better {
                    best = Some(Choice { piece: v, options });
                    best_set = set;
                    best_degree = degree;
                }
            }
        }
        v += 1;
    }
    match best {
        Some(choice) => Pick::Next(choice),
        None => Pick::Nothing,
    }
}

/// The origins of all pieces, where all were set.
fn all_origins(assigned: &Origins) -> (origins: Option<Vec<(i128, i128)>>)
    ensures
        match origins {
            Some(origins) => origins@.len() == assigned@.len() && forall|v: int|
                0 <= v < assigned@.len() ==> assigned@[v] == Some(#[trigger] origins@[v]),
            None => exists|v: int| 0 <= v < assigned@.len() && (#[trigger] assigned@[v]) is None,
        },
{
    let mut origins: Vec<(i128, i128)> = Vec::new();
    let mut v: usize = 0;
    while v < assigned.len()
        invariant
            v <= assigned@.len(),
            origins@.len() == v,
            forall|u: int| 0 <= u < v ==> assigned@[u] == Some(#[trigger] origins@[u]),
        decreases assigned.len() - v,
    {
        match assigned[v] {
            Some(o) => {
                origins.push(o);
            },
            None => {
                assert(assigned@[v as int] is None);
                return None;
            },
        }
        v += 1;
    }
    Some(origins)
}

proof fn lemma_complete(p: &PlacementProblem, assigned: Seq<Option<(i128, i128)>>, origins: Seq<(i128, i128)>)
    requires
        p.wf(),
        origins_wf(p, assigned),
        origins.len() == assigned.len(),
        forall|v: int| 0 <= v < assigned.len() ==> assigned[v] == Some(#[trigger] origins[v]),
    ensures
        p.coherent(placement::vectors(origins)),
        forall|v: int| 0 <= v < p.nodes ==> placement::apart(Some(#[trigger] origins[v])),
{
    let t = placement::vectors(origins);
    assert forall|l: int| 0 <= l < p.links@.len() implies p.link_holds(t, #[trigger] p.links@[l]) by {
        let link = p.links@[l];
        assert(p.link_wf(link));
        assert(link_consistent(link, assigned));
        assert(assigned[link.from as int] == Some(origins[link.from as int]));
        assert(assigned[link.to as int] == Some(origins[link.to as int]));
    }
    lemma_far(p, assigned);
    assert forall|v: int| 0 <= v < p.nodes implies placement::apart(Some(#[trigger] origins[v])) by {
        assert(placement::within(assigned[v], filled(assigned) * p.limit));
        assert(assigned[v] == Some(origins[v]));
    }
}

/// Where no piece is linked to one that was set, and some are not, the pieces do not hang
/// together.
proof fn lemma_disconnected(p: &PlacementProblem, assigned: Seq<Option<(i128, i128)>>, v: int)
    requires
        p.wf(),
        origins_wf(p, assigned),
        0 <= v < p.nodes,
        assigned[v] is None,
        forall|u: int| 0 <= u < p.nodes && (#[trigger] assigned[u]) is None ==> !is_bound(p, assigned, u),
    ensures
        !p.connected(),
{
    let set = Set::new(|u: int| 0 <= u < p.nodes && assigned[u] is Some);
    assert(p.closed(set)) by {
        assert forall|l: int| 0 <= l < p.links@.len() implies (set.contains((#[trigger] p.links@[l]).from as int)
            <==> set.contains(p.links@[l].to as int)) by {
            let link = p.links@[l];
            assert(p.link_wf(link));
            if assigned[link.from as int] is Some && assigned[link.to as int] is None {
                assert(binds(p, assigned, l, link.to as int));
                assert(!is_bound(p, assigned, link.to as int));
            }
            if assigned[link.to as int] is Some && assigned[link.from as int] is None {
                assert(binds(p, assigned, l, link.from as int));
                assert(!is_bound(p, assigned, link.from as int));
            }
        }
    }
    if p.connected() {
        let u = lemma_some_filled(assigned, assigned.len());
        assert(set.contains(u));
        assert(p.all_in(set));
        assert(set.contains(v));
    }
}

proof fn lemma_some_filled(assigned: Seq<Option<(i128, i128)>>, k: nat) -> (v: int)
    requires
        k <= assigned.len(),
        search::open_count(assigned, k) < k,
    ensures
        0 <= v < k,
        assigned[v] is Some,
    decreases k,
{
    if assigned[k - 1] is Some {
        k - 1
    } else {
        lemma_some_filled(assigned, (k - 1) as nat)
    }
}

/// What a search by pieces ends with.
pub enum ExactResult {
    Found(Seq<(i128, i128)>),
    Nowhere,
    LimitExceeded(usize),
    Disconnected,
}

/// What a search by pieces ends with, the states that were found to lead nowhere, and how many
/// states were looked at.
pub struct ExactOutcome {
    pub result: ExactResult,
    pub dead: Seq<Seq<Option<(i128, i128)>>>,
    pub visited: usize,
}

/// What follows from the origins that were set is set. Then the piece that goes before the others
/// is tried at each origin at which it can stand.
pub open spec fn exact_search(
    p: &PlacementProblem,
    limit: Option<usize>,
    start: Seq<Option<(i128, i128)>>,
    dead: Seq<Seq<Option<(i128, i128)>>>,
    visited: usize,
) -> ExactOutcome
    decreases search::open_count(start, p.nodes as nat), 1int, 0int,
{
    let count = if visited < usize::MAX {
        (visited + 1) as usize
    } else {
        visited
    };
    let forced = force_origins(p, start);
    let state = forced.origins;
    if limit is Some && count > limit->Some_0 {
        ExactOutcome { result: ExactResult::LimitExceeded(limit->Some_0), dead, visited: count }
    } else if !forced.possible {
        ExactOutcome { result: ExactResult::Nowhere, dead, visited: count }
    } else if placement::complete(state) {
        ExactOutcome {
            result: ExactResult::Found(Seq::new(state.len(), |v: int| state[v]->Some_0)),
            dead,
            visited: count,
        }
    } else if dead.contains(state) {
        ExactOutcome { result: ExactResult::Nowhere, dead, visited: count }
    } else if !can_go_on(p, state) {
        ExactOutcome { result: ExactResult::Nowhere, dead: dead.push(state), visited: count }
    } else {
        match pick_of(p, state, p.nodes as nat) {
            None => ExactOutcome { result: ExactResult::Disconnected, dead, visited: count },
            Some(v) => {
                let options = stand_list(p, state, v as int);
                try_origins(
                    p,
                    limit,
                    state,
                    v,
                    scored_of(p, state, v as int, options, options.len()).origins,
                    0,
                    dead,
                    count,
                    search::open_count(start, p.nodes as nat),
                )
            },
        }
    }
}

/// The piece is tried at the origins from `i` on. If none leads to a placement, the state leads
/// nowhere.
pub open spec fn try_origins(
    p: &PlacementProblem,
    limit: Option<usize>,
    state: Seq<Option<(i128, i128)>>,
    v: usize,
    origins: Seq<(i128, i128)>,
    i: int,
    dead: Seq<Seq<Option<(i128, i128)>>>,
    visited: usize,
    bound: nat,
) -> ExactOutcome
    decreases bound, 0int, origins.len() - i,
{
    if i < 0 || i >= origins.len() {
        ExactOutcome { result: ExactResult::Nowhere, dead: dead.push(state), visited }
    } else {
        let next = state.update(v as int, Some(origins[i]));
        if !can_go_on(p, next) {
            try_origins(p, limit, state, v, origins, i + 1, dead, visited, bound)
        } else if search::open_count(next, p.nodes as nat) >= bound {
            ExactOutcome { result: ExactResult::Nowhere, dead, visited }
        } else {
            let tried = exact_search(p, limit, next, dead, visited);
            if tried.result is Nowhere {
                try_origins(p, limit, state, v, origins, i + 1, tried.dead, tried.visited, bound)
            } else {
                tried
            }
        }
    }
}

/// The outcome of a search by pieces. A search that ends because of its limit has looked at more
/// states than that.
pub open spec fn is_exact_outcome(
    result: Result<Option<Vec<(i128, i128)>>, SearchStop>,
    outcome: ExactOutcome,
) -> bool {
    match result {
        Ok(Some(origins)) => outcome.result == ExactResult::Found(origins@),
        Ok(None) => outcome.result == ExactResult::Nowhere,
        Err(SearchStop::LimitExceeded { limit }) => outcome.result == ExactResult::LimitExceeded(limit)
            && outcome.visited > limit,
        Err(SearchStop::Disconnected) => outcome.result == ExactResult::Disconnected,
    }
}

/// The answer of a search from some origins that were set.
pub open spec fn is_answer(
    p: &PlacementProblem,
    limit: Option<usize>,
    assigned: Seq<Option<(i128, i128)>>,
    result: Result<Option<Vec<(i128, i128)>>, SearchStop>,
) -> bool {
    match result {
        Ok(Some(origins)) => {
            &&& p.coherent(placement::vectors(origins@))
            &&& agrees(assigned, placement::vectors(origins@))
            &&& forall|v: int| 0 <= v < p.nodes ==> placement::apart(Some(#[trigger] origins@[v]))
        },
        Ok(None) => hopeless(p, assigned),
        Err(SearchStop::LimitExceeded { limit: n }) => limit == Some(n),
        Err(SearchStop::Disconnected) => !p.connected(),
    }
}

/// Sets origins piece by piece. The answer is a placement that agrees with those that were
/// set, or that there is none.
fn search_origins(
    p: &PlacementProblem,
    incident: &Vec<Vec<usize>>,
    limit: Option<usize>,
    start: &Origins,
    dead: &mut Vec<Origins>,
    visited: &mut usize,
) -> (result: Result<Option<Vec<(i128, i128)>>, SearchStop>)
    requires
        p.wf(),
        are_rows(p, incident@),
        origins_wf(p, start@),
        all_hopeless(p, old(dead)@),
    ensures
        all_hopeless(p, final(dead)@),
        is_answer(p, limit, start@, result),
        ({
            let outcome = exact_search(p, limit, start@, repairs::states_of(old(dead)@), *old(visited));
            &&& is_exact_outcome(result, outcome)
            &&& repairs::states_of(final(dead)@) == outcome.dead
            &&& *final(visited) == outcome.visited
        }),
    decreases search::open_count(start@, p.nodes as nat),
{
    let ghost outcome = exact_search(p, limit, start@, repairs::states_of(dead@), *visited);
    let ghost met = repairs::states_of(dead@);
    if *visited < usize::MAX {
        *visited = *visited + 1;
    }
    match limit {
        Some(n) => {
            if *visited > n {
                return Err(SearchStop::LimitExceeded { limit: n });
            }
        },
        None => {},
    }
    let mut assigned: Origins = copy_choices(start);
    if !propagate_forced(p, incident, &mut assigned) {
        return Ok(None);
    }
    let ghost state = assigned@;
    match all_origins(&assigned) {
        Some(origins) => {
            proof {
                assert(placement::complete(state)) by {
                    assert forall|k: int| 0 <= k < state.len() implies (#[trigger] state[k]) is Some by {
                        assert(state[k] == Some(origins@[k]));
                    }
                }
                assert(origins@ =~= Seq::new(state.len(), |v: int| state[v]->Some_0));
                lemma_complete(p, state, origins@);
                let t = placement::vectors(origins@);
                assert forall|v: int| 0 <= v < start@.len() implies (#[trigger] start@[v] matches Some(o) ==> t[v]
                    == corridors::vector(o)) by {
                    if start@[v] is Some {
                        assert(state[v] == start@[v]);
                        assert(state[v] == Some(origins@[v]));
                    }
                }
            }
            return Ok(Some(origins));
        },
        None => {},
    }
    let known: bool = has_state(dead, &assigned);
    proof {
        if known {
            let i = choose|i: int| 0 <= i < dead@.len() && (#[trigger] dead@[i])@ == state;
            assert(met[i] == state);
        }
        if met.contains(state) {
            let i = choose|i: int| 0 <= i < met.len() && met[i] == state;
            assert(dead@[i]@ == state);
        }
    }
    if known {
        proof {
            let i = choose|i: int| 0 <= i < dead@.len() && (#[trigger] dead@[i])@ == state;
            assert(hopeless(p, dead@[i]@));
            lemma_hopeless_back(p, start@, state);
        }
        return Ok(None);
    }
    let choice: Choice = match pick_piece(p, incident, &assigned) {
        Pick::Next(choice) => choice,
        Pick::DeadEnd => {
            dead.push(assigned);
            proof {
                assert(repairs::states_of(dead@) =~= met.push(state));
                lemma_hopeless_back(p, start@, state);
            }
            return Ok(None);
        },
        Pick::Nothing => {
            proof {
                let v = choose|v: int| 0 <= v < assigned@.len() && (#[trigger] assigned@[v]) is None;
                lemma_disconnected(p, state, v);
            }
            return Err(SearchStop::Disconnected);
        },
    };
    let piece: usize = choice.piece;
    let ordered: Vec<(i128, i128)> = order_candidate_origins(p, incident, &assigned, piece, &choice.options);
    let ghost far = filled(state) * p.limit + p.limit;
    let ghost bound = search::open_count(start@, p.nodes as nat);
    let mut i: usize = 0;
    while i < ordered.len()
        invariant
            bound == search::open_count(start@, p.nodes as nat),
            outcome == exact_search(p, limit, start@, repairs::states_of(old(dead)@), *old(visited)),
            try_origins(
                p,
                limit,
                state,
                piece,
                ordered@,
                i as int,
                repairs::states_of(dead@),
                *visited,
                bound,
            ) == outcome,
            p.wf(),
            are_rows(p, incident@),
            origins_wf(p, state),
            assigned@ == state,
            piece < p.nodes,
            state[piece as int] is None,
            search::open_count(state, p.nodes as nat) <= search::open_count(start@, p.nodes as nat),
            search::extends(start@, state),
            all_hopeless(p, dead@),
            far == filled(state) * p.limit + p.limit,
            corridors::short(ordered@, far),
            forall|o: Vector| #[trigger] corridors::holds(ordered@, o) <==> can_stand(p, state, piece as int, o),
            i <= ordered@.len(),
            forall|j: int| 0 <= j < i ==> hopeless(p, state.update(piece as int, Some(#[trigger] ordered@[j]))),
        decreases ordered.len() - i,
    {
        let o: (i128, i128) = ordered[i];
        let mut next: Origins = copy_choices(&assigned);
        next.set(piece, Some(o));
        proof {
            assert(-far <= ordered@[i as int].0 <= far);
            assert(corridors::holds(ordered@, corridors::vector(ordered@[i as int])));
            lemma_set(p, state, piece as int, o);
        }
        if forward_check(p, incident, &next) {
            match search_origins(p, incident, limit, &next, dead, visited) {
                Ok(Some(origins)) => {
                    proof {
                        let t = placement::vectors(origins@);
                        assert forall|v: int| 0 <= v < start@.len() implies (#[trigger] start@[v] matches Some(q)
                            ==> t[v] == corridors::vector(q)) by {
                            if start@[v] is Some {
                                assert(state[v] == start@[v]);
                                assert(next@[v] == state[v]);
                            }
                        }
                    }
                    return Ok(Some(origins));
                },
                Ok(None) => {},
                Err(stop) => {
                    return Err(stop);
                },
            }
        }
        i += 1;
    }
    proof {
        assert forall|t: Seq<Vector>| #[trigger] p.coherent(t) implies !agrees(state, t) by {
            if agrees(state, t) {
                lemma_stands(p, state, t, piece as int);
                assert(corridors::holds(ordered@, t[piece as int]));
                let j = choose|j: int|
                    0 <= j < ordered@.len() && corridors::vector(#[trigger] ordered@[j]) == t[piece as int];
                let next = state.update(piece as int, Some(ordered@[j]));
                assert(hopeless(p, next));
                assert forall|v: int| 0 <= v < next.len() implies (#[trigger] next[v] matches Some(q) ==> t[v]
                    == corridors::vector(q)) by {
                    if v != piece {
                        assert(next[v] == state[v]);
                    }
                }
                assert(agrees(next, t));
            }
        }
        lemma_hopeless_back(p, start@, state);
    }
    let ghost before = repairs::states_of(dead@);
    dead.push(assigned);
    assert(repairs::states_of(dead@) =~= before.push(state));
    Ok(None)
}

/// Where everything that agrees with the one agrees with the other, and nothing with the
/// other, nothing agrees with the one.
proof fn lemma_hopeless_back(p: &PlacementProblem, start: Seq<Option<(i128, i128)>>, state: Seq<Option<(i128, i128)>>)
    requires
        hopeless(p, state),
        forall|t: Seq<Vector>| #[trigger] p.coherent(t) && agrees(start, t) ==> agrees(state, t),
    ensures
        hopeless(p, start),
{
}

/// Only the first piece is set, at the zero vector.
pub open spec fn first_state(p: &PlacementProblem) -> Seq<Option<(i128, i128)>> {
    Seq::new(
        p.nodes as nat,
        |v: int|
            if v == 0 {
                Some((0i128, 0i128))
            } else {
                None
            },
    )
}

/// Sets origins piece by piece, the first piece at the zero vector.
pub(crate) fn solve_origins_exact(p: &PlacementProblem, limit: Option<usize>) -> (result: Result<
    Option<Vec<(i128, i128)>>,
    SearchStop,
>)
    requires
        p.wf(),
    ensures
        match result {
            Ok(Some(origins)) => search::is_placement(p, origins@),
            Ok(None) => forall|t: Seq<Vector>| !#[trigger] p.coherent(t),
            Err(SearchStop::LimitExceeded { limit: n }) => limit == Some(n),
            Err(SearchStop::Disconnected) => !p.connected(),
        },
        is_exact_outcome(result, exact_search(p, limit, first_state(p), Seq::empty(), 0)),
{
    let incident: Vec<Vec<usize>> = collect_incident(p);
    let mut assigned: Origins = Vec::new();
    let mut v: usize = 0;
    while v < p.nodes
        invariant
            v <= p.nodes,
            assigned@.len() == v,
            forall|u: int| 0 <= u < v ==> (#[trigger] assigned@[u]) is None,
        decreases p.nodes - v,
    {
        assigned.push(None);
        v += 1;
    }
    let ghost empty = assigned@;
    assigned.set(0, Some((0, 0)));
    proof {
        assert(assigned@ =~= first_state(p));
        let first = assigned@;
        search::lemma_open_update(empty, 0, (0, 0), p.nodes as nat);
        lemma_open_bound(empty, p.nodes as nat);
        lemma_open_bound(first, p.nodes as nat);
        assert(filled(first) >= 1);
        assert(filled(first) * p.limit >= 0) by (nonlinear_arith)
            requires
                filled(first) >= 1,
                p.limit >= 1,
        ;
        assert forall|l: int| 0 <= l < p.links@.len() implies link_consistent(#[trigger] p.links@[l], first) by {
            assert(p.link_wf(p.links@[l]));
        }
    }
    let mut dead: Vec<Origins> = Vec::new();
    let mut visited: usize = 0;
    assert(repairs::states_of(dead@) =~= Seq::<Seq<Option<(i128, i128)>>>::empty());
    let result: Result<Option<Vec<(i128, i128)>>, SearchStop> = search_origins(
        p,
        &incident,
        limit,
        &assigned,
        &mut dead,
        &mut visited,
    );
    let ghost outcome = result;
    proof {
        match outcome {
            Ok(Some(origins)) => {
                let t = placement::vectors(origins@);
                assert(assigned@[0] == Some((0i128, 0i128)));
                assert(t[0] == (0int, 0int));
            },
            Ok(None) => {
                assert forall|t: Seq<Vector>| !#[trigger] p.coherent(t) by {
                    if p.coherent(t) {
                        let s = placement::shifted(t, t[0]);
                        assert(p.coherent(s)) by {
                            assert forall|l: int| 0 <= l < p.links@.len() implies p.link_holds(
                                s,
                                #[trigger] p.links@[l],
                            ) by {
                                assert(p.link_wf(p.links@[l]));
                                assert(p.link_holds(t, p.links@[l]));
                                let link = p.links@[l];
                                assert(corridors::minus(s[link.to as int], s[link.from as int]) == corridors::minus(
                                    t[link.to as int],
                                    t[link.from as int],
                                ));
                            }
                        }
                        assert(agrees(assigned@, s));
                    }
                }
            },
            Err(_) => {},
        }
    }
    result
}

} // verus!
