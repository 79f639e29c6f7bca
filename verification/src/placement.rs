//! The placement of linked pieces.
//!
//! Pieces that are linked have to stand from each other by a vector that their link
//! allows. Chains of links are taken together as corridors; a vector is then chosen for
//! each corridor such that all pieces fit.

use crate::corridors::{aggregate_corridor_candidates, split_corridor, Link, Vector};
use crate::corridors;
use crate::text::{push_usize, same_text, text_before};
use crate::text;
use vstd::prelude::*;

verus! {

/// Pieces and links. The links from west to east come first, in the order of their rows;
/// then those from north to south, in the order of their columns.
#[derive(Debug)]
pub struct PlacementProblem {
    pub nodes: usize,
    pub links: Vec<Link>,
    /// The number of links from west to east.
    pub across: usize,
    /// The pieces that are plain wires from west to east.
    pub level: Vec<bool>,
    /// The pieces that are plain wires from north to south.
    pub upright: Vec<bool>,
    /// Where the pieces stand on the grid, and their names.
    pub places: Vec<(i32, i32)>,
    pub names: Vec<&'static str>,
    /// The connectors of the links from west to east.
    pub connectors: Vec<&'static str>,
    /// No vector is longer, along either axis.
    pub limit: i128,
}

impl PlacementProblem {
    /// The links join pieces, and their vectors are pairs of 32-bit coordinates.
    pub open spec fn wf(&self) -> bool {
        &&& self.nodes > 0
        &&& self.across <= self.links@.len()
        &&& self.level@.len() == self.nodes
        &&& self.upright@.len() == self.nodes
        &&& self.places@.len() == self.nodes
        &&& self.names@.len() == self.nodes
        &&& self.connectors@.len() == self.across
        &&& 1 <= self.limit <= 0x8000_0000
        &&& self.links@.len() <= 2 * self.nodes
        &&& forall|l: int| 0 <= l < self.links@.len() ==> self.link_wf(#[trigger] self.links@[l])
    }

    /// The link joins pieces, and allows some short vectors.
    pub open spec fn link_wf(&self, link: Link) -> bool {
        &&& link.from < self.nodes
        &&& link.to < self.nodes
        &&& link.from != link.to
        &&& link.deltas@.len() > 0
        &&& corridors::short(link.deltas@, self.limit as int)
    }

    /// All links allow the vectors between the origins.
    pub open spec fn coherent(&self, origins: Seq<Vector>) -> bool {
        &&& origins.len() == self.nodes
        &&& forall|l: int| 0 <= l < self.links@.len() ==> self.link_holds(origins, #[trigger] self.links@[l])
    }

    pub open spec fn link_holds(&self, origins: Seq<Vector>, link: Link) -> bool {
        corridors::holds(link.deltas@, corridors::minus(origins[link.to as int], origins[link.from as int]))
    }

    /// The vectors between the origins are those that the links prefer.
    pub open spec fn preferred(&self, origins: Seq<Vector>) -> bool {
        &&& origins.len() == self.nodes
        &&& forall|l: int| 0 <= l < self.links@.len() ==> self.link_prefers(origins, #[trigger] self.links@[l])
    }

    pub open spec fn link_prefers(&self, origins: Seq<Vector>, link: Link) -> bool {
        corridors::minus(origins[link.to as int], origins[link.from as int]) == corridors::vector(link.deltas@[0])
    }

    /// No link leads out of the set.
    pub open spec fn closed(&self, set: Set<int>) -> bool {
        forall|l: int|
            0 <= l < self.links@.len() ==> (set.contains((#[trigger] self.links@[l]).from as int) <==> set.contains(
                self.links@[l].to as int,
            ))
    }

    /// All pieces hang together.
    pub open spec fn connected(&self) -> bool {
        forall|set: Set<int>, i: int| #![trigger self.closed(set), set.contains(i)]
            self.closed(set) && 0 <= i < self.nodes && set.contains(i) ==> self.all_in(set)
    }

    /// All pieces are in the set.
    pub open spec fn all_in(&self, set: Set<int>) -> bool {
        forall|i: int| 0 <= i < self.nodes ==> #[trigger] set.contains(i)
    }

    /// The link ends at the piece.
    pub open spec fn touches(&self, l: int, v: int) -> bool {
        self.links@[l].from == v || self.links@[l].to == v
    }
}

/// A chain of links, and the vectors that it allows; the first of them is the one that it
/// prefers.
#[derive(Debug)]
pub struct Corridor {
    pub first: usize,
    pub last: usize,
    pub domain: Vec<(i128, i128)>,
}

/// The vectors that the links of a corridor allow.
pub open spec fn delta_lists(p: &PlacementProblem, first: int, last: int) -> Seq<Seq<(i128, i128)>> {
    Seq::new((last - first) as nat, |j: int| p.links@[first + j].deltas@)
}

/// No link but `l` and the next ends at the piece.
pub open spec fn private(p: &PlacementProblem, l: int, v: int) -> bool {
    forall|m: int| 0 <= m < p.links@.len() && #[trigger] p.touches(m, v) ==> m == l || m == l + 1
}

/// Each link of the range starts where the one before it ends, and nothing else is linked
/// to that piece.
pub open spec fn chained(p: &PlacementProblem, first: int, last: int) -> bool {
    forall|l: int| first <= l && l + 1 < last ==> #[trigger] chained_at(p, l)
}

/// The next link starts where the link ends, and nothing else is linked to that piece.
pub open spec fn chained_at(p: &PlacementProblem, l: int) -> bool {
    p.links@[l].to == p.links@[l + 1].from && private(p, l, p.links@[l].to as int)
}

/// The corridor is a chain of links, and allows the sums of their vectors.
pub open spec fn corridor_wf(p: &PlacementProblem, c: Corridor) -> bool {
    let lists = delta_lists(p, c.first as int, c.last as int);
    &&& c.first < c.last <= p.links@.len()
    &&& chained(p, c.first as int, c.last as int)
    &&& forall|d: Vector| #[trigger] corridors::holds(c.domain@, d) <==> corridors::is_sum(lists, lists.len(), d)
    &&& c.domain@.len() > 0
    &&& corridors::vector(c.domain@[0]) == corridors::first_sum(lists, lists.len())
    &&& corridors::short(c.domain@, (c.last - c.first) * p.limit)
    &&& (c.last - c.first) * p.limit <= 0xf_ffff_ffff_ffff_ffff_ffff_ffff
}

/// Where a corridor starts.
pub open spec fn start_of(p: &PlacementProblem, c: Corridor) -> int {
    p.links@[c.first as int].from as int
}

/// Where a corridor ends.
pub open spec fn end_of(p: &PlacementProblem, c: Corridor) -> int {
    p.links@[c.last - 1].to as int
}

/// The corridors follow one another, and take up all links.
pub open spec fn corridors_wf(p: &PlacementProblem, list: Seq<Corridor>) -> bool {
    &&& forall|k: int| 0 <= k < list.len() ==> corridor_wf(p, #[trigger] list[k])
    &&& forall|j: int, k: int| #![trigger list[j], list[k]]
        0 <= j && k == j + 1 && k < list.len() ==> list[j].last == list[k].first
    &&& list.len() == 0 ==> p.links@.len() == 0
    &&& list.len() > 0 ==> list[0].first == 0 && list.last().last == p.links@.len()
}

/// The vectors of a problem add up to machine numbers.
pub proof fn lemma_limits(p: &PlacementProblem)
    requires
        p.wf(),
    ensures
        16 * p.nodes * p.limit <= 0x7f_ffff_ffff_ffff_ffff_ffff_ffff,
{
    assert(16 * p.nodes * p.limit <= 0x7f_ffff_ffff_ffff_ffff_ffff_ffff) by (nonlinear_arith)
        requires
            0 <= p.nodes <= 0xffff_ffff_ffff_ffff,
            0 <= p.limit <= 0x8000_0000,
    ;
}

/// How many ends of the links of a range are at the piece.
pub open spec fn touch_count(p: &PlacementProblem, v: int, first: int, last: int) -> nat
    decreases last - first,
{
    if first >= last {
        0
    } else {
        touch_count(p, v, first, last - 1) + end_count(p, v, last - 1)
    }
}

/// How many ends of the link are at the piece.
pub open spec fn end_count(p: &PlacementProblem, v: int, l: int) -> nat {
    (if p.links@[l].from == v {
        1nat
    } else {
        0
    }) + (if p.links@[l].to == v {
        1nat
    } else {
        0
    })
}

proof fn lemma_touch_split(p: &PlacementProblem, v: int, first: int, mid: int, last: int)
    requires
        first <= mid <= last,
    ensures
        touch_count(p, v, first, last) == touch_count(p, v, first, mid) + touch_count(p, v, mid, last),
    decreases last - mid,
{
    if mid < last {
        lemma_touch_split(p, v, first, mid, last - 1);
    }
}

proof fn lemma_touch_none(p: &PlacementProblem, v: int, first: int, last: int, l: int)
    requires
        first <= l < last,
        touch_count(p, v, first, last) == 0,
    ensures
        !p.touches(l, v),
{
    lemma_touch_split(p, v, first, l, last);
    lemma_touch_split(p, v, l, l + 1, last);
    assert(touch_count(p, v, l, l + 1) == touch_count(p, v, l, l) + end_count(p, v, l));
}

/// Two ends of links of the same axis are at the piece, and none of the other.
proof fn lemma_private(p: &PlacementProblem, l: int, first: int, last: int)
    requires
        p.wf(),
        (first == 0 && last == p.across) || (first == p.across && last == p.links@.len()),
        first <= l,
        l + 1 < last,
        p.links@[l].to == p.links@[l + 1].from,
        touch_count(p, p.links@[l].to as int, first, last) == 2,
        touch_count(p, p.links@[l].to as int, 0, p.links@.len() as int) == 2,
    ensures
        private(p, l, p.links@[l].to as int),
{
    let v = p.links@[l].to as int;
    let n = p.links@.len() as int;
    lemma_touch_split(p, v, 0, l, n);
    lemma_touch_split(p, v, l, l + 1, n);
    lemma_touch_split(p, v, l + 1, l + 2, n);
    assert(touch_count(p, v, l, l + 1) == touch_count(p, v, l, l) + end_count(p, v, l));
    assert(touch_count(p, v, l + 1, l + 2) == touch_count(p, v, l + 1, l + 1) + end_count(p, v, l + 1));
    assert forall|m: int| 0 <= m < n && #[trigger] p.touches(m, v) implies m == l || m == l + 1 by {
        if m < l {
            lemma_touch_none(p, v, 0, l, m);
        } else if m > l + 1 {
            lemma_touch_none(p, v, l + 2, n, m);
        }
    }
}

/// How many ends of the links of a range are at each piece.
fn count_touches(p: &PlacementProblem, first: usize, last: usize) -> (counts: Vec<u128>)
    requires
        p.wf(),
        first <= last <= p.links@.len(),
    ensures
        counts@.len() == p.nodes,
        forall|v: int| 0 <= v < p.nodes ==> #[trigger] counts@[v] == touch_count(p, v, first as int, last as int),
{
    let mut counts: Vec<u128> = Vec::new();
    let mut i: usize = 0;
    while i < p.nodes
        invariant
            i <= p.nodes,
            counts@.len() == i,
            forall|v: int| 0 <= v < i ==> #[trigger] counts@[v] == 0,
        decreases p.nodes - i,
    {
        counts.push(0);
        i += 1;
    }
    let mut l: usize = first;
    while l < last
        invariant
            p.wf(),
            first <= l <= last <= p.links@.len(),
            counts@.len() == p.nodes,
            forall|v: int| 0 <= v < p.nodes ==> #[trigger] counts@[v] == touch_count(p, v, first as int, l as int),
            forall|v: int| 0 <= v < p.nodes ==> #[trigger] counts@[v] <= 2 * l,
        decreases last - l,
    {
        assert(p.link_wf(p.links@[l as int]));
        let from: usize = p.links[l].from;
        let to: usize = p.links[l].to;
        let ghost before = counts@;
        assert(before[from as int] <= 2 * l);
        assert(before[to as int] <= 2 * l);
        counts.set(from, counts[from] + 1);
        counts.set(to, counts[to] + 1);
        proof {
            assert forall|v: int| 0 <= v < p.nodes implies #[trigger] counts@[v] == touch_count(
                p,
                v,
                first as int,
                l + 1,
            ) && counts@[v] <= 2 * (l + 1) by {
                assert(before[v] == touch_count(p, v, first as int, l as int));
                assert(before[v] <= 2 * l);
            }
        }
        l += 1;
    }
    counts
}

/// The vectors of the links of a range.
fn copy_lists(p: &PlacementProblem, first: usize, last: usize) -> (lists: Vec<Vec<(i128, i128)>>)
    requires
        p.wf(),
        first <= last <= p.links@.len(),
    ensures
        corridors::list_views(lists@) == delta_lists(p, first as int, last as int),
        lists@.len() == last - first,
        corridors::proper(corridors::list_views(lists@), p.limit as int),
        lists@.len() * p.limit <= 0xf_ffff_ffff_ffff_ffff_ffff_ffff,
{
    let mut lists: Vec<Vec<(i128, i128)>> = Vec::new();
    let mut l: usize = first;
    while l < last
        invariant
            p.wf(),
            first <= l <= last <= p.links@.len(),
            lists@.len() == l - first,
            forall|j: int| 0 <= j < lists@.len() ==> (#[trigger] lists@[j])@ == p.links@[first + j].deltas@,
        decreases last - l,
    {
        let list: &Vec<(i128, i128)> = &p.links[l].deltas;
        let mut copy: Vec<(i128, i128)> = Vec::new();
        let mut i: usize = 0;
        while i < list.len()
            invariant
                i <= list@.len(),
                copy@ == list@.take(i as int),
            decreases list.len() - i,
        {
            copy.push(list[i]);
            assert(list@.take(i + 1) =~= list@.take(i as int).push(list@[i as int]));
            i += 1;
        }
        assert(list@.take(i as int) =~= list@);
        lists.push(copy);
        l += 1;
    }
    proof {
        let views = corridors::list_views(lists@);
        assert(views =~= delta_lists(p, first as int, last as int));
        assert forall|k: int| 0 <= k < views.len() implies (#[trigger] views[k]).len() > 0 && corridors::short(
            views[k],
            p.limit as int,
        ) by {
            assert(p.link_wf(p.links@[first + k]));
        }
        lemma_limits(p);
        assert(lists@.len() * p.limit <= 0xf_ffff_ffff_ffff_ffff_ffff_ffff) by (nonlinear_arith)
            requires
                lists@.len() <= 2 * p.nodes,
                16 * p.nodes * p.limit <= 0x7f_ffff_ffff_ffff_ffff_ffff_ffff,
                p.limit >= 1,
        ;
    }
    lists
}

/// The corridor of a range of links.
fn prepare_corridor(p: &PlacementProblem, first: usize, last: usize) -> (corridor: Corridor)
    requires
        p.wf(),
        first < last <= p.links@.len(),
        chained(p, first as int, last as int),
    ensures
        corridor_wf(p, corridor),
        corridor.first == first,
        corridor.last == last,
        in_distance_order(corridor.domain@),
{
    let lists: Vec<Vec<(i128, i128)>> = copy_lists(p, first, last);
    let ghost views = corridors::list_views(lists@);
    let mut total: (i128, i128) = (0, 0);
    let mut k: usize = 0;
    while k < lists.len()
        invariant
            k <= lists@.len(),
            views == corridors::list_views(lists@),
            corridors::proper(views, p.limit as int),
            p.limit >= 1,
            lists@.len() * p.limit <= 0x7f_ffff_ffff_ffff_ffff_ffff_ffff,
            corridors::vector(total) == corridors::first_sum(views, k as nat),
        decreases lists.len() - k,
    {
        proof {
            corridors::lemma_first_is_sum(views, p.limit as int, k as nat);
            corridors::lemma_sum_short(views, p.limit as int, k as nat, corridors::vector(total));
            assert(k * p.limit <= lists@.len() * p.limit) by (nonlinear_arith)
                requires
                    k < lists@.len(),
                    p.limit >= 1,
            ;
            assert(views[k as int] == lists@[k as int]@);
            assert(corridors::short(views[k as int], p.limit as int));
            assert(-p.limit <= lists@[k as int]@[0].0 <= p.limit);
        }
        let step: (i128, i128) = lists[k][0];
        assert(p.limit <= 0x7f_ffff_ffff_ffff_ffff_ffff_ffff) by (nonlinear_arith)
            requires
                lists@.len() * p.limit <= 0x7f_ffff_ffff_ffff_ffff_ffff_ffff,
                lists@.len() >= 1,
                p.limit >= 1,
        ;
        total = (total.0 + step.0, total.1 + step.1);
        k += 1;
    }
    let domain: Vec<(i128, i128)> = aggregate_corridor_candidates(&lists, p.limit, total);
    Corridor { first, last, domain }
}

/// The piece is a plain wire of the axis, and nothing but two links of the axis end at it.
pub open spec fn collapsible(p: &PlacementProblem, v: int, across: bool) -> bool {
    let wide = touch_count(p, v, 0, p.across as int);
    let high = touch_count(p, v, p.across as int, p.links@.len() as int);
    if across {
        p.level@[v] && wide == 2 && high == 0
    } else {
        p.upright@[v] && high == 2 && wide == 0
    }
}

/// The link goes on where the one before it ends, through a piece that is a plain wire.
pub open spec fn continues(p: &PlacementProblem, l: int) -> bool {
    &&& (l < p.across || l > p.across)
    &&& p.links@[l - 1].to == p.links@[l].from
    &&& collapsible(p, p.links@[l].from as int, l < p.across)
}

/// A corridor goes on as long as it can, and no longer. Its vectors stand in the order of
/// their distance from the one that its links prefer, each once.
pub open spec fn are_longest(p: &PlacementProblem, list: Seq<Corridor>) -> bool {
    &&& forall|k: int| 0 < k < list.len() ==> !continues(p, (#[trigger] list[k]).first as int)
    &&& forall|k: int, l: int|
        0 <= k < list.len() && (#[trigger] list[k]).first < l < list[k].last ==> #[trigger] continues(p, l)
    &&& forall|k: int| 0 <= k < list.len() ==> in_distance_order((#[trigger] list[k]).domain@)
}

/// The vectors stand in the order of their distance from the first, each once.
pub open spec fn in_distance_order(domain: Seq<(i128, i128)>) -> bool {
    &&& domain.no_duplicates()
    &&& corridors::nearest_first(domain, corridors::vector(domain[0]))
}

/// The corridors: chains of links through plain wires that nothing else is linked to, each
/// as long as possible.
fn build_corridors(p: &PlacementProblem) -> (list: Vec<Corridor>)
    requires
        p.wf(),
    ensures
        corridors_wf(p, list@),
        are_longest(p, list@),
{
    let n: usize = p.links.len();
    let wide: Vec<u128> = count_touches(p, 0, p.across);
    let high: Vec<u128> = count_touches(p, p.across, n);
    let mut list: Vec<Corridor> = Vec::new();
    let mut first: usize = 0;
    let mut l: usize = 0;
    while l < n
        invariant
            p.wf(),
            n == p.links@.len(),
            wide@.len() == p.nodes,
            high@.len() == p.nodes,
            forall|v: int| 0 <= v < p.nodes ==> #[trigger] wide@[v] == touch_count(p, v, 0, p.across as int),
            forall|v: int| 0 <= v < p.nodes ==> #[trigger] high@[v] == touch_count(p, v, p.across as int, n as int),
            first <= l <= n,
            first == l ==> l == 0,
            chained(p, first as int, l as int),
            forall|k: int| 0 <= k < list@.len() ==> corridor_wf(p, #[trigger] list@[k]),
            forall|j: int, k: int| #![trigger list@[j], list@[k]]
                0 <= j && k == j + 1 && k < list@.len() ==> list@[j].last == list@[k].first,
            list@.len() == 0 ==> first == 0,
            list@.len() > 0 ==> list@[0].first == 0 && list@.last().last == first && !continues(p, first as int),
            are_longest(p, list@),
            forall|m: int| first < m < l ==> #[trigger] continues(p, m),
        decreases n - l,
    {
        if l > first {
            assert(p.link_wf(p.links@[l as int]));
            let node: usize = p.links[l].from;
            let free: bool = if l < p.across {
                p.level[node] && wide[node] == 2 && high[node] == 0
            } else {
                p.upright[node] && high[node] == 2 && wide[node] == 0
            };
            let goes_on: bool = l != p.across && p.links[l - 1].to == node && free;
            assert(wide@[node as int] == touch_count(p, node as int, 0, p.across as int));
            assert(high@[node as int] == touch_count(p, node as int, p.across as int, n as int));
            assert(goes_on == continues(p, l as int));
            if goes_on {
                proof {
                    lemma_touch_split(p, node as int, 0, p.across as int, n as int);
                    if l < p.across {
                        lemma_private(p, l - 1, 0, p.across as int);
                    } else {
                        lemma_private(p, l - 1, p.across as int, n as int);
                    }
                }
            } else {
                list.push(prepare_corridor(p, first, l));
                first = l;
            }
        }
        l += 1;
    }
    if first < n {
        list.push(prepare_corridor(p, first, n));
    }
    list
}

/// The vector from the start of a corridor to its end.
pub open spec fn gap(p: &PlacementProblem, list: Seq<Corridor>, origins: Seq<Vector>, k: int) -> Vector {
    corridors::minus(origins[end_of(p, list[k])], origins[start_of(p, list[k])])
}

/// The vectors that were chosen for corridors are those between the origins.
pub open spec fn fits(
    p: &PlacementProblem,
    list: Seq<Corridor>,
    choices: Seq<Option<(i128, i128)>>,
    origins: Seq<Vector>,
) -> bool {
    &&& origins.len() == p.nodes
    &&& forall|k: int|
        0 <= k < list.len() ==> (#[trigger] choices[k] matches Some(d) ==> gap(p, list, origins, k)
            == corridors::vector(d))
}

/// The chosen vectors are allowed.
pub open spec fn choices_wf(list: Seq<Corridor>, choices: Seq<Option<(i128, i128)>>) -> bool {
    &&& choices.len() == list.len()
    &&& forall|k: int|
        0 <= k < list.len() ==> (#[trigger] choices[k] matches Some(d) ==> corridors::holds(
            list[k].domain@,
            corridors::vector(d),
        ))
}

/// A step from one piece to another along a corridor, or against it.
#[derive(Debug, Clone, Copy)]
pub struct Step {
    pub parent: usize,
    pub corridor: usize,
    pub forward: bool,
}

/// The step leads along its corridor from its parent to the piece.
spec fn leads(p: &PlacementProblem, list: Seq<Corridor>, step: Step, v: int) -> bool {
    &&& step.corridor < list.len()
    &&& step.parent < p.nodes
    &&& if step.forward {
        start_of(p, list[step.corridor as int]) == step.parent && end_of(p, list[step.corridor as int]) == v
    } else {
        end_of(p, list[step.corridor as int]) == step.parent && start_of(p, list[step.corridor as int]) == v
    }
}

/// The tree of steps by which pieces were reached.
#[derive(Debug)]
struct Tree {
    steps: Vec<Option<Step>>,
    depth: Vec<usize>,
}

impl Tree {
    spec fn wf(&self, p: &PlacementProblem, list: Seq<Corridor>) -> bool {
        &&& self.steps@.len() == p.nodes
        &&& self.depth@.len() == p.nodes
        &&& forall|v: int|
            0 <= v < p.nodes ==> (#[trigger] self.steps@[v] matches Some(step) ==> leads(p, list, step, v)
                && self.depth@[v] == self.depth@[step.parent as int] + 1)
        &&& forall|v: int| 0 <= v < p.nodes ==> #[trigger] self.depth@[v] < p.nodes
    }
}

/// The vector along the first `k` corridors of a path.
spec fn path_gap(
    p: &PlacementProblem,
    list: Seq<Corridor>,
    origins: Seq<Vector>,
    path: Seq<(usize, bool)>,
    k: nat,
) -> Vector
    decreases k,
{
    if k == 0 {
        (0int, 0int)
    } else {
        let earlier = path_gap(p, list, origins, path, (k - 1) as nat);
        let step = gap(p, list, origins, path[k - 1].0 as int);
        if path[k - 1].1 {
            corridors::plus(earlier, step)
        } else {
            corridors::minus(earlier, step)
        }
    }
}

proof fn lemma_path_gap_prefix(
    p: &PlacementProblem,
    list: Seq<Corridor>,
    origins: Seq<Vector>,
    a: Seq<(usize, bool)>,
    b: Seq<(usize, bool)>,
    k: nat,
)
    requires
        k <= a.len(),
        k <= b.len(),
        forall|j: int| 0 <= j < k ==> a[j] == b[j],
    ensures
        path_gap(p, list, origins, a, k) == path_gap(p, list, origins, b, k),
    decreases k,
{
    if k > 0 {
        lemma_path_gap_prefix(p, list, origins, a, b, (k - 1) as nat);
        assert(a[k - 1] == b[k - 1]);
    }
}

/// The corridors of the steps from a piece up to the root of its tree.
pub open spec fn climb_path(steps: Seq<Option<Step>>, depth: Seq<usize>, v: int) -> Seq<(usize, bool)>
    decreases depth[v],
{
    match steps[v] {
        Some(step) => if depth[step.parent as int] < depth[v] {
            seq![(step.corridor, step.forward)] + climb_path(steps, depth, step.parent as int)
        } else {
            Seq::empty()
        },
        None => Seq::empty(),
    }
}

/// The root of the tree of a piece.
pub open spec fn climb_root(steps: Seq<Option<Step>>, depth: Seq<usize>, v: int) -> int
    decreases depth[v],
{
    match steps[v] {
        Some(step) => if depth[step.parent as int] < depth[v] {
            climb_root(steps, depth, step.parent as int)
        } else {
            v
        },
        None => v,
    }
}

/// How often the first `k` steps of a path go along a corridor, less how often they go against
/// it.
pub open spec fn net_steps(path: Seq<(usize, bool)>, c: int, k: nat) -> int
    decreases k,
{
    if k == 0 {
        0
    } else {
        net_steps(path, c, (k - 1) as nat) + (if path[k - 1].0 != c {
            0int
        } else if path[k - 1].1 {
            1int
        } else {
            -1int
        })
    }
}

/// How often the cycle from one piece through a tree to another, and back by a step, goes
/// along each of `n` corridors. There is none if the pieces are in different trees.
pub open spec fn cycle_of(
    n: nat,
    steps: Seq<Option<Step>>,
    depth: Seq<usize>,
    from: int,
    to: int,
    back: Step,
) -> Option<Seq<i128>> {
    let up = climb_path(steps, depth, from);
    let down = climb_path(steps, depth, to);
    let closing = seq![(back.corridor, back.forward)];
    if climb_root(steps, depth, from) != climb_root(steps, depth, to) {
        None
    } else {
        Some(
            Seq::new(
                n,
                |c: int|
                    (net_steps(down, c, down.len()) - net_steps(up, c, up.len()) - net_steps(closing, c, 1)) as i128,
            ),
        )
    }
}

/// No corridor comes twice on a path.
spec fn steps_differ(path: Seq<(usize, bool)>) -> bool {
    forall|i: int, j: int| #![trigger path[i], path[j]] 0 <= i < j < path.len() ==> path[i].0 != path[j].0
}

/// The corridors from the root of a tree to a piece, the last first.
fn climb(p: &PlacementProblem, list: &Vec<Corridor>, tree: &Tree, v: usize) -> (climbed: (Vec<(usize, bool)>, usize))
    requires
        p.wf(),
        tree.wf(p, list@),
        v < p.nodes,
    ensures
        climbed.1 < p.nodes,
        climbed.0@ == climb_path(tree.steps@, tree.depth@, v as int),
        climbed.1 == climb_root(tree.steps@, tree.depth@, v as int),
        climbed.0@.len() < p.nodes,
        forall|i: int| 0 <= i < climbed.0@.len() ==> (#[trigger] climbed.0@[i]).0 < list@.len(),
        steps_differ(climbed.0@),
        forall|origins: Seq<Vector>| #[trigger]
            path_gap(p, list@, origins, climbed.0@, climbed.0@.len()) == corridors::minus(
                origins[v as int],
                origins[climbed.1 as int],
            ),
{
    let mut path: Vec<(usize, bool)> = Vec::new();
    let mut at: usize = v;
    assert(path@ + climb_path(tree.steps@, tree.depth@, at as int) =~= climb_path(tree.steps@, tree.depth@, v as int));
    while tree.steps[at].is_some()
        invariant
            p.wf(),
            tree.wf(p, list@),
            at < p.nodes,
            v < p.nodes,
            path@.len() + tree.depth@[at as int] == tree.depth@[v as int],
            path@ + climb_path(tree.steps@, tree.depth@, at as int) == climb_path(tree.steps@, tree.depth@, v as int),
            climb_root(tree.steps@, tree.depth@, at as int) == climb_root(tree.steps@, tree.depth@, v as int),
            steps_differ(path@),
            forall|i: int|
                0 <= i < path@.len() ==> tree.depth@[start_of(p, list@[(#[trigger] path@[i]).0 as int])]
                    >= tree.depth@[at as int] && tree.depth@[end_of(p, list@[path@[i].0 as int])]
                    >= tree.depth@[at as int],
            forall|i: int| 0 <= i < path@.len() ==> (#[trigger] path@[i]).0 < list@.len(),
            forall|origins: Seq<Vector>| #[trigger]
                path_gap(p, list@, origins, path@, path@.len()) == corridors::minus(
                    origins[v as int],
                    origins[at as int],
                ),
        decreases tree.depth@[at as int],
    {
        let ghost before = path@;
        let ghost old_at = at as int;
        match tree.steps[at] {
            Some(step) => {
                assert(leads(p, list@, step, at as int));
                path.push((step.corridor, step.forward));
                at = step.parent;
                proof {
                    assert(path@ + climb_path(tree.steps@, tree.depth@, at as int) =~= before + climb_path(
                        tree.steps@,
                        tree.depth@,
                        old_at,
                    ));
                    assert forall|i: int| 0 <= i < before.len() implies (#[trigger] before[i]).0 != step.corridor by {
                        assert(tree.depth@[start_of(p, list@[before[i].0 as int])] >= tree.depth@[old_at]);
                    }
                    assert forall|i: int, j: int| #![trigger path@[i], path@[j]]
                        0 <= i < j < path@.len() implies path@[i].0 != path@[j].0 by {
                        assert(path@[i] == before[i]);
                        if j < before.len() {
                            assert(path@[j] == before[j]);
                        }
                    }
                    assert forall|i: int| 0 <= i < path@.len() implies tree.depth@[start_of(
                        p,
                        list@[(#[trigger] path@[i]).0 as int],
                    )] >= tree.depth@[at as int] && tree.depth@[end_of(p, list@[path@[i].0 as int])]
                        >= tree.depth@[at as int] by {
                        if i < before.len() {
                            assert(path@[i] == before[i]);
                        }
                    }
                    assert forall|origins: Seq<Vector>| #[trigger]
                        path_gap(p, list@, origins, path@, path@.len()) == corridors::minus(
                            origins[v as int],
                            origins[at as int],
                        ) by {
                        lemma_path_gap_prefix(p, list@, origins, path@, before, before.len());
                        assert(path_gap(p, list@, origins, before, before.len()) == corridors::minus(
                            origins[v as int],
                            origins[old_at],
                        ));
                    }
                }
            },
            None => {},
        }
    }
    assert(path@ + climb_path(tree.steps@, tree.depth@, at as int) =~= path@);
    (path, at)
}

/// The vectors of corridors, each multiplied by a number, added up.
pub open spec fn weighted(
    p: &PlacementProblem,
    list: Seq<Corridor>,
    origins: Seq<Vector>,
    numbers: Seq<i128>,
    k: nat,
) -> Vector
    decreases k,
{
    if k == 0 {
        (0int, 0int)
    } else {
        let earlier = weighted(p, list, origins, numbers, (k - 1) as nat);
        let step = gap(p, list, origins, k - 1);
        (earlier.0 + numbers[k - 1] * step.0, earlier.1 + numbers[k - 1] * step.1)
    }
}

proof fn lemma_weighted_update(
    p: &PlacementProblem,
    list: Seq<Corridor>,
    origins: Seq<Vector>,
    numbers: Seq<i128>,
    c: int,
    value: i128,
    k: nat,
)
    requires
        0 <= c < numbers.len(),
        k <= numbers.len(),
    ensures
        ({
            let after = weighted(p, list, origins, numbers.update(c, value), k);
            let before = weighted(p, list, origins, numbers, k);
            let step = gap(p, list, origins, c);
            if c < k {
                after == (before.0 + (value - numbers[c]) * step.0, before.1 + (value - numbers[c]) * step.1)
            } else {
                after == before
            }
        }),
    decreases k,
{
    if k > 0 {
        lemma_weighted_update(p, list, origins, numbers, c, value, (k - 1) as nat);
        let step = gap(p, list, origins, c);
        let old_value = numbers[c] as int;
        assert(value * step.0 == old_value * step.0 + (value - old_value) * step.0) by (nonlinear_arith);
        assert(value * step.1 == old_value * step.1 + (value - old_value) * step.1) by (nonlinear_arith);
    }
}

proof fn lemma_weighted_zero(p: &PlacementProblem, list: Seq<Corridor>, origins: Seq<Vector>, numbers: Seq<i128>, k: nat)
    requires
        k <= numbers.len(),
        forall|i: int| 0 <= i < numbers.len() ==> #[trigger] numbers[i] == 0,
    ensures
        weighted(p, list, origins, numbers, k) == (0int, 0int),
    decreases k,
{
    if k > 0 {
        lemma_weighted_zero(p, list, origins, numbers, (k - 1) as nat);
        let step = gap(p, list, origins, k - 1);
        assert(0 * step.0 == 0 && 0 * step.1 == 0) by (nonlinear_arith);
    }
}

/// Adds a path to the numbers by which corridors are multiplied, or takes it away.
fn add_path(
    p: &PlacementProblem,
    list: &Vec<Corridor>,
    numbers: &mut Vec<i128>,
    path: &Vec<(usize, bool)>,
    positive: bool,
    bound: i128,
)
    requires
        old(numbers)@.len() == list@.len(),
        0 <= bound <= 2,
        steps_differ(path@),
        forall|i: int| 0 <= i < old(numbers)@.len() ==> -bound <= #[trigger] old(numbers)@[i] <= bound,
        forall|i: int| 0 <= i < path@.len() ==> (#[trigger] path@[i]).0 < list@.len(),
    ensures
        final(numbers)@.len() == list@.len(),
        forall|i: int|
            0 <= i < final(numbers)@.len() ==> -bound - 1 <= #[trigger] final(numbers)@[i] <= bound + 1,
        forall|i: int|
            0 <= i < final(numbers)@.len() ==> #[trigger] final(numbers)@[i] == old(numbers)@[i] + (if positive {
                net_steps(path@, i, path@.len())
            } else {
                -net_steps(path@, i, path@.len())
            }),
        forall|origins: Seq<Vector>| #[trigger]
            weighted(p, list@, origins, final(numbers)@, list@.len()) == (if positive {
                corridors::plus(
                    weighted(p, list@, origins, old(numbers)@, list@.len()),
                    path_gap(p, list@, origins, path@, path@.len()),
                )
            } else {
                corridors::minus(
                    weighted(p, list@, origins, old(numbers)@, list@.len()),
                    path_gap(p, list@, origins, path@, path@.len()),
                )
            }),
{
    let ghost start = numbers@;
    let mut i: usize = 0;
    while i < path.len()
        invariant
            i <= path@.len(),
            0 <= bound <= 2,
            steps_differ(path@),
            numbers@.len() == list@.len(),
            forall|j: int| 0 <= j < path@.len() ==> (#[trigger] path@[j]).0 < list@.len(),
            forall|j: int| 0 <= j < numbers@.len() ==> -bound - 1 <= #[trigger] numbers@[j] <= bound + 1,
            forall|j: int| i <= j < path@.len() ==> -bound <= numbers@[(#[trigger] path@[j]).0 as int] <= bound,
            start.len() == list@.len(),
            forall|j: int|
                0 <= j < numbers@.len() ==> #[trigger] numbers@[j] == start[j] + (if positive {
                    net_steps(path@, j, i as nat)
                } else {
                    -net_steps(path@, j, i as nat)
                }),
            forall|origins: Seq<Vector>| #[trigger]
                weighted(p, list@, origins, numbers@, list@.len()) == (if positive {
                    corridors::plus(
                        weighted(p, list@, origins, start, list@.len()),
                        path_gap(p, list@, origins, path@, i as nat),
                    )
                } else {
                    corridors::minus(
                        weighted(p, list@, origins, start, list@.len()),
                        path_gap(p, list@, origins, path@, i as nat),
                    )
                }),
        decreases path.len() - i,
    {
        let (corridor, forward): (usize, bool) = path[i];
        assert(path@[i as int].0 < list@.len());
        let ghost before = numbers@;
        assert(-bound <= numbers@[path@[i as int].0 as int] <= bound);
        let value: i128 = if positive == forward {
            numbers[corridor] + 1
        } else {
            numbers[corridor] - 1
        };
        numbers.set(corridor, value);
        proof {
            assert forall|j: int| 0 <= j < numbers@.len() implies -bound - 1 <= #[trigger] numbers@[j] <= bound + 1 by {
                assert(-bound - 1 <= before[j] <= bound + 1);
            }
            assert forall|j: int| 0 <= j < numbers@.len() implies #[trigger] numbers@[j] == start[j] + (if positive {
                net_steps(path@, j, (i + 1) as nat)
            } else {
                -net_steps(path@, j, (i + 1) as nat)
            }) by {
                assert(before[j] == start[j] + (if positive {
                    net_steps(path@, j, i as nat)
                } else {
                    -net_steps(path@, j, i as nat)
                }));
            }
            assert forall|j: int| i + 1 <= j < path@.len() implies -bound <= numbers@[(#[trigger] path@[j]).0 as int]
                <= bound by {
                assert(path@[i as int].0 != path@[j].0);
                assert(-bound <= before[path@[j].0 as int] <= bound);
            }
            assert forall|origins: Seq<Vector>| #[trigger]
                weighted(p, list@, origins, numbers@, list@.len()) == (if positive {
                    corridors::plus(
                        weighted(p, list@, origins, start, list@.len()),
                        path_gap(p, list@, origins, path@, (i + 1) as nat),
                    )
                } else {
                    corridors::minus(
                        weighted(p, list@, origins, start, list@.len()),
                        path_gap(p, list@, origins, path@, (i + 1) as nat),
                    )
                }) by {
                lemma_weighted_update(p, list@, origins, before, corridor as int, value, list@.len());
                let step = gap(p, list@, origins, corridor as int);
                let change = value - before[corridor as int];
                assert(change == 1 || change == -1);
                assert(1 * step.0 == step.0 && 1 * step.1 == step.1 && (-1) * step.0 == -step.0 && (-1) * step.1
                    == -step.1) by (nonlinear_arith);
            }
        }
        i += 1;
    }
}

/// None of the numbers is large.
pub open spec fn small(numbers: Seq<i128>) -> bool {
    forall|i: int| 0 <= i < numbers.len() ==> -3 <= #[trigger] numbers[i] <= 3
}

/// The numbers by which corridors are multiplied on the way from one piece to another
/// through a tree, and back along a corridor. No numbers if the pieces are in different
/// trees.
fn cycle_numbers(p: &PlacementProblem, list: &Vec<Corridor>, tree: &Tree, from: usize, to: usize, back: Step) -> (numbers:
    Option<Vec<i128>>)
    requires
        p.wf(),
        tree.wf(p, list@),
        from < p.nodes,
        to < p.nodes,
        leads(p, list@, back, to as int),
        back.parent == from,
    ensures
        match numbers {
            Some(numbers) => cycle_of(
                list@.len(),
                tree.steps@,
                tree.depth@,
                from as int,
                to as int,
                back,
            ) == Some(numbers@),
            None => cycle_of(list@.len(), tree.steps@, tree.depth@, from as int, to as int, back) is None,
        },
        numbers matches Some(numbers) ==> numbers@.len() == list@.len() && small(numbers@) && forall|
            origins: Seq<Vector>,
        | #[trigger] weighted(p, list@, origins, numbers@, list@.len()) == (0int, 0int),
{
    let (up, root): (Vec<(usize, bool)>, usize) = climb(p, list, tree, from);
    let (down, other): (Vec<(usize, bool)>, usize) = climb(p, list, tree, to);
    if root != other {
        return None;
    }
    let mut numbers: Vec<i128> = Vec::new();
    let mut i: usize = 0;
    while i < list.len()
        invariant
            i <= list@.len(),
            numbers@.len() == i,
            forall|j: int| 0 <= j < i ==> #[trigger] numbers@[j] == 0,
        decreases list.len() - i,
    {
        numbers.push(0);
        i += 1;
    }
    let ghost zero = numbers@;
    let closing: Vec<(usize, bool)> = vec![(back.corridor, back.forward)];
    add_path(p, list, &mut numbers, &down, true, 0);
    let ghost first = numbers@;
    add_path(p, list, &mut numbers, &up, false, 1);
    let ghost second = numbers@;
    add_path(p, list, &mut numbers, &closing, false, 2);
    proof {
        assert(closing@ =~= seq![(back.corridor, back.forward)]);
        let model = cycle_of(list@.len(), tree.steps@, tree.depth@, from as int, to as int, back)->Some_0;
        assert forall|c: int| 0 <= c < list@.len() implies numbers@[c] == model[c] by {
            assert(first[c] == zero[c] + net_steps(down@, c, down@.len()));
            assert(second[c] == first[c] - net_steps(up@, c, up@.len()));
            assert(zero[c] == 0);
        }
        assert(numbers@ =~= model);
        assert forall|origins: Seq<Vector>| #[trigger]
            weighted(p, list@, origins, numbers@, list@.len()) == (0int, 0int) by {
            lemma_weighted_zero(p, list@, origins, zero, list@.len());
            assert(weighted(p, list@, origins, first, list@.len()) == corridors::plus(
                weighted(p, list@, origins, zero, list@.len()),
                path_gap(p, list@, origins, down@, down@.len()),
            ));
            assert(weighted(p, list@, origins, second, list@.len()) == corridors::minus(
                weighted(p, list@, origins, first, list@.len()),
                path_gap(p, list@, origins, up@, up@.len()),
            ));
            reveal_with_fuel(path_gap, 2);
            assert(closing@[0] == (back.corridor, back.forward));
        }
    }
    Some(numbers)
}

/// A corridor at a piece, and whether it starts there.
pub type Side = (usize, bool);

/// The sides at a piece of the first `n` corridors with chosen vectors.
pub open spec fn side_row(
    p: &PlacementProblem,
    list: Seq<Corridor>,
    choices: Seq<Option<(i128, i128)>>,
    v: int,
    n: nat,
) -> Seq<Side>
    decreases n,
{
    if n == 0 {
        Seq::empty()
    } else {
        let k = n - 1;
        let earlier = side_row(p, list, choices, v, k as nat);
        if choices[k] is None {
            earlier
        } else {
            let one = if start_of(p, list[k]) == v {
                earlier.push((k as usize, true))
            } else {
                earlier
            };
            if end_of(p, list[k]) == v {
                one.push((k as usize, false))
            } else {
                one
            }
        }
    }
}

/// The side of a corridor lies at a piece.
spec fn lies_at(p: &PlacementProblem, list: Seq<Corridor>, side: Side, v: int) -> bool {
    &&& side.0 < list.len()
    &&& if side.1 {
        start_of(p, list[side.0 as int]) == v
    } else {
        end_of(p, list[side.0 as int]) == v
    }
}

/// The sides of corridors at each piece.
spec fn are_sides(
    p: &PlacementProblem,
    list: Seq<Corridor>,
    choices: Seq<Option<(i128, i128)>>,
    sides: Seq<Vec<Side>>,
    n: int,
) -> bool {
    &&& sides.len() == p.nodes
    &&& forall|v: int, i: int|
        0 <= v < p.nodes && 0 <= i < sides[v]@.len() ==> lies_at(p, list, #[trigger] sides[v]@[i], v)
            && choices[sides[v]@[i].0 as int] is Some
    &&& forall|k: int, start: bool|
        0 <= k < n && choices[k] is Some ==> #[trigger] has_side(p, list, sides, k, start)
}

/// The piece at a side of the corridor.
spec fn side_node(p: &PlacementProblem, list: Seq<Corridor>, k: int, start: bool) -> int {
    if start {
        start_of(p, list[k])
    } else {
        end_of(p, list[k])
    }
}

/// The side of the corridor is listed.
spec fn has_side(p: &PlacementProblem, list: Seq<Corridor>, sides: Seq<Vec<Side>>, k: int, start: bool) -> bool {
    listed(sides[side_node(p, list, k, start)]@, k, start)
}

/// The side is in the list.
spec fn listed(row: Seq<Side>, k: int, start: bool) -> bool {
    exists|i: int| 0 <= i < row.len() && (#[trigger] row[i]).0 == k && row[i].1 == start
}

fn push_side(sides: &mut Vec<Vec<Side>>, v: usize, side: Side)
    requires
        v < old(sides)@.len(),
    ensures
        final(sides)@.len() == old(sides)@.len(),
        final(sides)@[v as int]@ == old(sides)@[v as int]@.push(side),
        forall|u: int| 0 <= u < old(sides)@.len() && u != v ==> final(sides)@[u] == old(sides)@[u],
{
    let mut row: Vec<Side> = Vec::new();
    std::mem::swap(&mut row, &mut sides[v]);
    row.push(side);
    sides.set(v, row);
}

/// The corridors with chosen vectors, at each piece.
fn collect_sides(p: &PlacementProblem, list: &Vec<Corridor>, choices: &Vec<Option<(i128, i128)>>) -> (sides: Vec<
    Vec<Side>,
>)
    requires
        p.wf(),
        corridors_wf(p, list@),
        choices@.len() == list@.len(),
    ensures
        are_sides(p, list@, choices@, sides@, list@.len() as int),
        forall|v: int| 0 <= v < p.nodes ==> (#[trigger] sides@[v])@ == side_row(p, list@, choices@, v, list@.len()),
{
    let mut sides: Vec<Vec<Side>> = Vec::new();
    let mut i: usize = 0;
    while i < p.nodes
        invariant
            i <= p.nodes,
            sides@.len() == i,
            forall|v: int| 0 <= v < i ==> (#[trigger] sides@[v])@.len() == 0,
        decreases p.nodes - i,
    {
        sides.push(Vec::new());
        i += 1;
    }
    let mut k: usize = 0;
    while k < list.len()
        invariant
            p.wf(),
            corridors_wf(p, list@),
            choices@.len() == list@.len(),
            k <= list@.len(),
            are_sides(p, list@, choices@, sides@, k as int),
            forall|v: int| 0 <= v < p.nodes ==> (#[trigger] sides@[v])@ == side_row(p, list@, choices@, v, k as nat),
        decreases list.len() - k,
    {
        proof {
            assert(corridor_wf(p, list@[k as int]));
            assert(p.link_wf(p.links@[list@[k as int].first as int]));
            assert(p.link_wf(p.links@[list@[k as int].last - 1]));
        }
        let ghost before = sides@;
        if choices[k].is_some() {
            let start: usize = p.links[list[k].first].from;
            let end: usize = p.links[list[k].last - 1].to;
            push_side(&mut sides, start, (k, true));
            let ghost middle = sides@;
            push_side(&mut sides, end, (k, false));
            proof {
                let after = sides@;
                assert forall|v: int, i: int| 0 <= v < p.nodes && 0 <= i < after[v]@.len() implies lies_at(
                    p,
                    list@,
                    #[trigger] after[v]@[i],
                    v,
                ) && choices@[after[v]@[i].0 as int] is Some by {
                    if i < before[v]@.len() {
                        assert(after[v]@[i] == before[v]@[i]);
                    } else if i < middle[v]@.len() {
                        assert(after[v]@[i] == middle[v]@[i]);
                        assert(v == start);
                        assert(middle[v]@[i] == (k, true));
                    } else {
                        assert(v == end);
                        assert(after[v]@[i] == (k, false));
                    }
                }
                assert forall|j: int, s: bool| 0 <= j < k + 1 && choices@[j] is Some implies #[trigger] has_side(
                    p,
                    list@,
                    after,
                    j,
                    s,
                ) by {
                    let v = side_node(p, list@, j, s);
                    assert(corridor_wf(p, list@[j]));
                    assert(p.link_wf(p.links@[list@[j].first as int]));
                    assert(p.link_wf(p.links@[list@[j].last - 1]));
                    if j < k {
                        assert(has_side(p, list@, before, j, s));
                        let i = choose|i: int|
                            0 <= i < before[v]@.len() && (#[trigger] before[v]@[i]).0 == j && before[v]@[i].1 == s;
                        assert(after[v]@[i] == before[v]@[i]);
                    } else if s {
                        let i = before[v]@.len() as int;
                        assert(middle[v]@[i] == (k, true));
                        assert(after[v]@[i] == (k, true));
                    } else {
                        let i = middle[v]@.len() as int;
                        assert(after[v]@[i] == (k, false));
                    }
                }
            }
        }
        k += 1;
    }
    sides
}

/// The pieces of a list differ.
spec fn distinct(queue: Seq<usize>) -> bool {
    forall|i: int, j: int| #![trigger queue[i], queue[j]] 0 <= i < j < queue.len() ==> queue[i] != queue[j]
}

proof fn lemma_distinct_few(queue: Seq<usize>, n: nat)
    requires
        distinct(queue),
        forall|i: int| 0 <= i < queue.len() ==> (#[trigger] queue[i]) < n,
    ensures
        queue.len() <= n,
{
    let values = queue.map_values(|v: usize| v as int);
    assert(values.no_duplicates()) by {
        assert forall|i: int, j: int| 0 <= i < values.len() && 0 <= j < values.len() && i != j implies values[i]
            != values[j] by {
            if i < j {
                assert(queue[i] != queue[j]);
            } else {
                assert(queue[j] != queue[i]);
            }
        }
    }
    values.unique_seq_to_set();
    let all = vstd::set_lib::set_int_range(0, n as int);
    vstd::set_lib::lemma_int_range(0, n as int);
    assert(values.to_set().subset_of(all)) by {
        assert forall|x: int| values.to_set().contains(x) implies all.contains(x) by {
            let i = choose|i: int| 0 <= i < values.len() && values[i] == x;
            assert(queue[i] < n);
        }
    }
    vstd::set_lib::lemma_len_subset(values.to_set(), all);
}

/// The origins of the pieces that were reached.
pub open spec fn reached(origins: Seq<Option<(i128, i128)>>, v: int) -> bool {
    origins[v] is Some
}

/// Both ends of the corridor were reached, and stand from each other by its vector.
pub open spec fn settled(
    p: &PlacementProblem,
    list: Seq<Corridor>,
    choices: Seq<Option<(i128, i128)>>,
    origins: Seq<Option<(i128, i128)>>,
    k: int,
) -> bool {
    let a = start_of(p, list[k]);
    let b = end_of(p, list[k]);
    &&& origins[a] is Some
    &&& origins[b] is Some
    &&& corridors::minus(corridors::vector(origins[b]->Some_0), corridors::vector(origins[a]->Some_0))
        == corridors::vector(choices[k]->Some_0)
}

/// All origins that fit, with the root at the zero vector, are those that were reached.
pub open spec fn forced(
    p: &PlacementProblem,
    list: Seq<Corridor>,
    choices: Seq<Option<(i128, i128)>>,
    root: int,
    origins: Seq<Option<(i128, i128)>>,
) -> bool {
    forall|t: Seq<Vector>, v: int| #![trigger fits(p, list, choices, t), origins[v]]
        fits(p, list, choices, t) && t[root] == (0int, 0int) && 0 <= v < p.nodes && origins[v] is Some ==> t[v]
            == corridors::vector(origins[v]->Some_0)
}

/// Moves all origins by a vector.
pub open spec fn shifted(t: Seq<Vector>, d: Vector) -> Seq<Vector> {
    Seq::new(t.len(), |v: int| corridors::minus(t[v], d))
}

pub proof fn lemma_shifted_fits(
    p: &PlacementProblem,
    list: Seq<Corridor>,
    choices: Seq<Option<(i128, i128)>>,
    t: Seq<Vector>,
    d: Vector,
)
    requires
        p.wf(),
        corridors_wf(p, list),
        fits(p, list, choices, t),
    ensures
        fits(p, list, choices, shifted(t, d)),
{
    let s = shifted(t, d);
    assert forall|k: int| 0 <= k < list.len() implies (#[trigger] choices[k] matches Some(e) ==> gap(p, list, s, k)
        == corridors::vector(e)) by {
        assert(corridor_wf(p, list[k]));
        assert(p.link_wf(p.links@[list[k].first as int]));
        assert(p.link_wf(p.links@[list[k].last - 1]));
    }
}

/// A cycle of corridors whose vectors do not add up to zero: the numbers by which they are
/// multiplied.
#[derive(Debug)]
pub struct Conflict {
    pub numbers: Vec<i128>,
}

/// The pieces that were reached from a root, in the order in which they were reached, and
/// their origins.
#[derive(Debug)]
struct Flood {
    origins: Vec<Option<(i128, i128)>>,
    tree: Tree,
    queue: Vec<usize>,
}

/// The pieces that were reached, and how.
pub struct FloodModel {
    pub origins: Seq<Option<(i128, i128)>>,
    pub steps: Seq<Option<Step>>,
    pub depth: Seq<usize>,
    pub queue: Seq<usize>,
}

/// Only the root was reached.
pub open spec fn flood_start(p: &PlacementProblem, root: usize) -> FloodModel {
    FloodModel {
        origins: Seq::new(
            p.nodes as nat,
            |v: int|
                if v == root {
                    Some((0i128, 0i128))
                } else {
                    None
                },
        ),
        steps: Seq::new(p.nodes as nat, |v: int| None),
        depth: Seq::new(p.nodes as nat, |v: int| 0usize),
        queue: seq![root],
    }
}

/// The piece at the other side of a corridor.
pub open spec fn across_side(p: &PlacementProblem, list: Seq<Corridor>, side: Side) -> usize {
    if side.1 {
        p.links@[list[side.0 as int].last - 1].to
    } else {
        p.links@[list[side.0 as int].first as int].from
    }
}

/// A corridor is followed from a piece: the piece at its other side gets the origin to which
/// the chosen vector leads. If it has another, the cycle that contradicts it is the outcome.
pub open spec fn follow_side(
    p: &PlacementProblem,
    list: Seq<Corridor>,
    choices: Seq<Option<(i128, i128)>>,
    flood: FloodModel,
    cell: usize,
    side: Side,
) -> Result<FloodModel, Seq<i128>> {
    let o = flood.origins[cell as int]->Some_0;
    let d = choices[side.0 as int]->Some_0;
    let neighbor = across_side(p, list, side);
    let expected = if side.1 {
        ((o.0 + d.0) as i128, (o.1 + d.1) as i128)
    } else {
        ((o.0 - d.0) as i128, (o.1 - d.1) as i128)
    };
    let step = Step { parent: cell, corridor: side.0, forward: side.1 };
    match flood.origins[neighbor as int] {
        None => Ok(
            FloodModel {
                origins: flood.origins.update(neighbor as int, Some(expected)),
                steps: flood.steps.update(neighbor as int, Some(step)),
                depth: flood.depth.update(neighbor as int, (flood.depth[cell as int] + 1) as usize),
                queue: flood.queue.push(neighbor),
            },
        ),
        Some(existing) => if existing == expected {
            Ok(flood)
        } else {
            match cycle_of(list.len(), flood.steps, flood.depth, cell as int, neighbor as int, step) {
                Some(numbers) => Err(numbers),
                None => Err(Seq::empty()),
            }
        },
    }
}

/// The sides of a row from `j` on are followed.
pub open spec fn follow_row(
    p: &PlacementProblem,
    list: Seq<Corridor>,
    choices: Seq<Option<(i128, i128)>>,
    flood: FloodModel,
    cell: usize,
    row: Seq<Side>,
    j: int,
) -> Result<FloodModel, Seq<i128>>
    decreases row.len() - j,
{
    if j >= row.len() {
        Ok(flood)
    } else {
        match follow_side(p, list, choices, flood, cell, row[j]) {
            Ok(next) => follow_row(p, list, choices, next, cell, row, j + 1),
            Err(numbers) => Err(numbers),
        }
    }
}

/// The pieces that were reached are followed, from the one at `head` on.
pub open spec fn flood_from(
    p: &PlacementProblem,
    list: Seq<Corridor>,
    choices: Seq<Option<(i128, i128)>>,
    flood: FloodModel,
    head: int,
) -> Result<FloodModel, Seq<i128>>
    decreases p.nodes - head,
{
    if head >= flood.queue.len() || head >= p.nodes {
        Ok(flood)
    } else {
        let cell = flood.queue[head];
        match follow_row(p, list, choices, flood, cell, side_row(p, list, choices, cell as int, list.len()), 0) {
            Ok(next) => flood_from(p, list, choices, next, head + 1),
            Err(numbers) => Err(numbers),
        }
    }
}

/// Where the chosen vectors lead to from a piece, or the cycle that contradicts them.
pub open spec fn flood(
    p: &PlacementProblem,
    list: Seq<Corridor>,
    choices: Seq<Option<(i128, i128)>>,
    root: usize,
) -> Result<FloodModel, Seq<i128>> {
    flood_from(p, list, choices, flood_start(p, root), 0)
}

/// The list holds the piece.
spec fn queued(queue: Seq<usize>, v: int) -> bool {
    exists|i: int| 0 <= i < queue.len() && #[trigger] queue[i] == v
}

/// A piece at which a corridor starts or ends.
pub open spec fn is_end(p: &PlacementProblem, list: Seq<Corridor>, v: int) -> bool {
    exists|k: int| 0 <= k < list.len() && (start_of(p, #[trigger] list[k]) == v || end_of(p, list[k]) == v)
}

/// The origin is no farther away than a number, along either axis.
pub open spec fn within(origin: Option<(i128, i128)>, far: int) -> bool {
    origin matches Some(o) ==> -far <= o.0 <= far && -far <= o.1 <= far
}

/// The number of links of the first `n` corridors of which both ends were reached.
spec fn reach_len(p: &PlacementProblem, list: Seq<Corridor>, origins: Seq<Option<(i128, i128)>>, n: nat) -> nat
    decreases n,
{
    if n == 0 {
        0
    } else {
        let c = list[n - 1];
        reach_len(p, list, origins, (n - 1) as nat) + (if origins[start_of(p, c)] is Some && origins[end_of(p, c)] is Some {
            (c.last - c.first) as nat
        } else {
            0
        })
    }
}

proof fn lemma_reach_len(p: &PlacementProblem, list: Seq<Corridor>, origins: Seq<Option<(i128, i128)>>, n: nat)
    requires
        corridors_wf(p, list),
        n <= list.len(),
    ensures
        n > 0 ==> reach_len(p, list, origins, n) <= list[n - 1].last,
        n == 0 ==> reach_len(p, list, origins, n) == 0,
    decreases n,
{
    if n > 0 {
        lemma_reach_len(p, list, origins, (n - 1) as nat);
        assert(corridor_wf(p, list[n - 1]));
        if n > 1 {
            assert(list[n - 2].last == list[n - 1].first);
        }
    }
}

/// One more piece was reached, through a corridor.
proof fn lemma_reach_grows(
    p: &PlacementProblem,
    list: Seq<Corridor>,
    before: Seq<Option<(i128, i128)>>,
    after: Seq<Option<(i128, i128)>>,
    k: int,
    n: nat,
)
    requires
        p.wf(),
        corridors_wf(p, list),
        n <= list.len(),
        0 <= k < list.len(),
        before.len() == p.nodes,
        after.len() == p.nodes,
        forall|v: int| 0 <= v < p.nodes && (#[trigger] before[v]) is Some ==> after[v] is Some,
        before[start_of(p, list[k])] is None || before[end_of(p, list[k])] is None,
        after[start_of(p, list[k])] is Some,
        after[end_of(p, list[k])] is Some,
    ensures
        reach_len(p, list, after, n) >= reach_len(p, list, before, n) + (if k < n {
            list[k].last - list[k].first
        } else {
            0
        }),
    decreases n,
{
    if n > 0 {
        lemma_reach_grows(p, list, before, after, k, (n - 1) as nat);
        let c = list[n - 1];
        assert(corridor_wf(p, c));
        assert(p.link_wf(p.links@[c.first as int]));
        assert(p.link_wf(p.links@[c.last - 1]));
    }
}

impl Flood {
    spec fn model(&self) -> FloodModel {
        FloodModel {
            origins: self.origins@,
            steps: self.tree.steps@,
            depth: self.tree.depth@,
            queue: self.queue@,
        }
    }

    spec fn wf(&self, p: &PlacementProblem, list: Seq<Corridor>, root: int) -> bool {
        &&& self.origins@.len() == p.nodes
        &&& 0 <= root < p.nodes
        &&& self.origins@[root] == Some((0i128, 0i128))
        &&& self.tree.wf(p, list)
        &&& distinct(self.queue@)
        &&& forall|i: int| 0 <= i < self.queue@.len() ==> (#[trigger] self.queue@[i]) < p.nodes
        &&& forall|v: int| 0 <= v < p.nodes && (#[trigger] self.origins@[v]) is Some ==> queued(self.queue@, v)
        &&& forall|i: int| 0 <= i < self.queue@.len() ==> self.origins@[#[trigger] self.queue@[i] as int] is Some
        &&& forall|v: int|
            0 <= v < p.nodes ==> within(
                #[trigger] self.origins@[v],
                reach_len(p, list, self.origins@, list.len()) * p.limit,
            )
        &&& forall|i: int| 0 <= i < self.queue@.len() ==> self.tree.depth@[#[trigger] self.queue@[i] as int] <= i
        &&& forall|v: int|
            0 <= v < p.nodes ==> (#[trigger] self.tree.steps@[v] matches Some(step)
                ==> self.origins@[step.parent as int] is Some)
        &&& forall|v: int|
            0 <= v < p.nodes && v != root && (#[trigger] self.origins@[v]) is Some ==> is_end(p, list, v)
    }

    /// Reaches one more piece.
    fn enter(
        &mut self,
        p: &PlacementProblem,
        list: &Vec<Corridor>,
        head: usize,
        step: Step,
        neighbor: usize,
        expected: (i128, i128),
        root: Ghost<int>,
    )
        requires
            p.wf(),
            corridors_wf(p, list@),
            old(self).wf(p, list@, root@),
            head < old(self).queue@.len(),
            step.parent == old(self).queue@[head as int],
            neighbor < p.nodes,
            leads(p, list@, step, neighbor as int),
            old(self).origins@[neighbor as int] is None,
            within(
                Some(expected),
                (reach_len(p, list@, old(self).origins@, list@.len()) + list@[step.corridor as int].last
                    - list@[step.corridor as int].first) * p.limit,
            ),
        ensures
            final(self).wf(p, list@, root@),
            final(self).queue@ == old(self).queue@.push(neighbor),
            final(self).origins@ == old(self).origins@.update(neighbor as int, Some(expected)),
            final(self).tree.steps@ == old(self).tree.steps@.update(neighbor as int, Some(step)),
            final(self).tree.depth@ == old(self).tree.depth@.update(
                neighbor as int,
                (old(self).tree.depth@[step.parent as int] + 1) as usize,
            ),
    {
        let ghost before = *self;
        proof {
            assert(before.queue@[head as int] < p.nodes);
            assert(before.origins@[before.queue@[head as int] as int] is Some);
            let more = before.queue@.push(neighbor);
            assert forall|i: int| 0 <= i < before.queue@.len() implies before.queue@[i] != neighbor by {
                assert(before.origins@[before.queue@[i] as int] is Some);
            }
            assert(distinct(more)) by {
                assert forall|i: int, j: int| #![trigger more[i], more[j]] 0 <= i < j < more.len() implies more[i]
                    != more[j] by {
                    if j < before.queue@.len() {
                        assert(before.queue@[i] != before.queue@[j]);
                    }
                }
            }
            assert forall|i: int| 0 <= i < more.len() implies (#[trigger] more[i]) < p.nodes by {
                if i < before.queue@.len() {
                    assert(before.queue@[i] < p.nodes);
                }
            }
            lemma_distinct_few(more, p.nodes as nat);
            assert(before.tree.depth@[before.queue@[head as int] as int] <= head);
        }
        self.origins.set(neighbor, Some(expected));
        self.tree.steps.set(neighbor, Some(step));
        let depth: usize = self.tree.depth[step.parent] + 1;
        self.tree.depth.set(neighbor, depth);
        self.queue.push(neighbor);
        proof {
            assert(step.parent != neighbor);
            assert forall|v: int| 0 <= v < p.nodes implies (#[trigger] self.tree.steps@[v] matches Some(s) ==> leads(
                p,
                list@,
                s,
                v,
            ) && self.tree.depth@[v] == self.tree.depth@[s.parent as int] + 1 && self.origins@[s.parent as int]
                is Some) by {
                if v != neighbor && before.tree.steps@[v] is Some {
                    let s = before.tree.steps@[v]->Some_0;
                    assert(leads(p, list@, s, v));
                    assert(before.origins@[s.parent as int] is Some);
                }
            }
            assert forall|v: int| 0 <= v < p.nodes implies #[trigger] self.tree.depth@[v] < p.nodes by {
                assert(before.tree.depth@[v] < p.nodes);
            }
            assert forall|v: int| 0 <= v < p.nodes && (#[trigger] self.origins@[v]) is Some implies queued(
                self.queue@,
                v,
            ) by {
                if v == neighbor {
                    assert(self.queue@[before.queue@.len() as int] == neighbor);
                } else {
                    assert(before.origins@[v] is Some);
                    assert(queued(before.queue@, v));
                    let i = choose|i: int| 0 <= i < before.queue@.len() && #[trigger] before.queue@[i] == v;
                    assert(self.queue@[i] == v);
                }
            }
            let len = reach_len(p, list@, before.origins@, list@.len());
            let more_len = reach_len(p, list@, self.origins@, list@.len());
            let added = list@[step.corridor as int].last - list@[step.corridor as int].first;
            lemma_reach_grows(p, list@, before.origins@, self.origins@, step.corridor as int, list@.len());
            assert(len * p.limit <= more_len * p.limit && (len + added) * p.limit <= more_len * p.limit) by (nonlinear_arith)
                requires
                    len + added <= more_len,
                    0 <= added,
                    p.limit >= 1,
            ;
            assert forall|v: int| 0 <= v < p.nodes implies within(#[trigger] self.origins@[v], more_len * p.limit) by {
                assert(within(before.origins@[v], len * p.limit));
            }
            assert forall|i: int| 0 <= i < self.queue@.len() implies self.origins@[#[trigger] self.queue@[i] as int] is Some
                && self.tree.depth@[self.queue@[i] as int] <= i by {
                if i < before.queue@.len() {
                    assert(self.queue@[i] == before.queue@[i]);
                    assert(before.origins@[before.queue@[i] as int] is Some);
                    assert(before.tree.depth@[before.queue@[i] as int] <= i);
                }
            }
            assert forall|v: int|
                0 <= v < p.nodes && v != root@ && (#[trigger] self.origins@[v]) is Some implies is_end(p, list@, v) by {
                if v == neighbor {
                    let k = step.corridor as int;
                    assert(start_of(p, list@[k]) == v || end_of(p, list@[k]) == v);
                } else {
                    assert(before.origins@[v] is Some);
                }
            }
        }
    }

    /// Follows a corridor from a piece that was reached.
    fn follow(
        &mut self,
        p: &PlacementProblem,
        list: &Vec<Corridor>,
        choices: &Vec<Option<(i128, i128)>>,
        head: usize,
        side: Side,
        root: Ghost<int>,
    ) -> (conflict: Option<Conflict>)
        requires
            p.wf(),
            corridors_wf(p, list@),
            choices_wf(list@, choices@),
            old(self).wf(p, list@, root@),
            forced(p, list@, choices@, root@, old(self).origins@),
            head < old(self).queue@.len(),
            lies_at(p, list@, side, old(self).queue@[head as int] as int),
            choices@[side.0 as int] is Some,
        ensures
            match conflict {
                Some(conflict) => {
                    &&& conflict.numbers@.len() == list@.len() || conflict.numbers@.len() == 0
                    &&& small(conflict.numbers@)
                    &&& forall|t: Seq<Vector>| !#[trigger] fits(p, list@, choices@, t)
                    &&& follow_side(
                        p,
                        list@,
                        choices@,
                        old(self).model(),
                        old(self).queue@[head as int],
                        side,
                    ) == Err::<FloodModel, Seq<i128>>(conflict.numbers@)
                },
                None => {
                    &&& follow_side(
                        p,
                        list@,
                        choices@,
                        old(self).model(),
                        old(self).queue@[head as int],
                        side,
                    ) == Ok::<FloodModel, Seq<i128>>(final(self).model())
                    &&& final(self).wf(p, list@, root@)
                    &&& forced(p, list@, choices@, root@, final(self).origins@)
                    &&& settled(p, list@, choices@, final(self).origins@, side.0 as int)
                    &&& old(self).queue@.len() <= final(self).queue@.len()
                    &&& forall|i: int|
                        0 <= i < old(self).queue@.len() ==> #[trigger] final(self).queue@[i] == old(self).queue@[i]
                    &&& forall|v: int|
                        0 <= v < p.nodes && (#[trigger] old(self).origins@[v]) is Some ==> final(self).origins@[v]
                            == old(self).origins@[v]
                },
            },
    {
        let ghost before = *self;
        let (k, forward): Side = side;
        let cell: usize = self.queue[head];
        proof {
            assert(corridor_wf(p, list@[k as int]));
            assert(p.link_wf(p.links@[list@[k as int].first as int]));
            assert(p.link_wf(p.links@[list@[k as int].last - 1]));
            lemma_distinct_few(self.queue@, p.nodes as nat);
            assert(self.queue@[head as int] < p.nodes);
            assert(self.origins@[self.queue@[head as int] as int] is Some);
            lemma_small_reach(p, list@, self.origins@);
            assert(within(
                self.origins@[cell as int],
                reach_len(p, list@, self.origins@, list@.len()) * p.limit,
            ));
        }
        let origin: (i128, i128) = match self.origins[cell] {
            Some(origin) => origin,
            None => (0, 0),
        };
        let neighbor: usize = if forward {
            p.links[list[k].last - 1].to
        } else {
            p.links[list[k].first].from
        };
        let delta: (i128, i128) = match choices[k] {
            Some(delta) => delta,
            None => (0, 0),
        };
        proof {
            assert(choices@[k as int] == Some(delta));
            let e = choose|e: int|
                0 <= e < list@[k as int].domain@.len() && corridors::vector(#[trigger] list@[k as int].domain@[e])
                    == corridors::vector(delta);
            let added = list@[k as int].last - list@[k as int].first;
            let len = reach_len(p, list@, self.origins@, list@.len());
            assert(corridors::short(list@[k as int].domain@, added * p.limit));
            assert(-(added * p.limit) <= list@[k as int].domain@[e].0 <= added * p.limit);
            assert((len + added) * p.limit == len * p.limit + added * p.limit) by (nonlinear_arith);
        }
        let expected: (i128, i128) = if forward {
            (origin.0 + delta.0, origin.1 + delta.1)
        } else {
            (origin.0 - delta.0, origin.1 - delta.1)
        };
        let step: Step = Step { parent: cell, corridor: k, forward };
        assert(leads(p, list@, step, neighbor as int));
        assert forall|t: Seq<Vector>| #[trigger] fits(p, list@, choices@, t) && t[root@] == (0int, 0int) implies t[neighbor as int]
            == corridors::vector(expected) by {
            assert(choices@[k as int] is Some);
            assert(self.origins@[cell as int] is Some);
            assert(t[cell as int] == corridors::vector(origin));
        }
        match self.origins[neighbor] {
            None => {
                self.enter(p, list, head, step, neighbor, expected, root);
                assert(cell != neighbor);
                assert(forced(p, list@, choices@, root@, self.origins@)) by {
                    assert forall|t: Seq<Vector>, v: int| #![trigger fits(p, list@, choices@, t), self.origins@[v]]
                        fits(p, list@, choices@, t) && t[root@] == (0int, 0int) && 0 <= v < p.nodes
                            && self.origins@[v] is Some implies t[v] == corridors::vector(self.origins@[v]->Some_0) by {
                        if v != neighbor {
                            assert(before.origins@[v] is Some);
                        }
                    }
                }
                None
            },
            Some(existing) => {
                if existing.0 != expected.0 || existing.1 != expected.1 {
                    proof {
                        assert forall|t: Seq<Vector>| !#[trigger] fits(p, list@, choices@, t) by {
                            if fits(p, list@, choices@, t) {
                                let s = shifted(t, t[root@]);
                                lemma_shifted_fits(p, list@, choices@, t, t[root@]);
                                assert(s[root@] == (0int, 0int));
                                assert(self.origins@[neighbor as int] is Some);
                                assert(s[neighbor as int] == corridors::vector(existing));
                                assert(s[neighbor as int] == corridors::vector(expected));
                            }
                        }
                    }
                    let numbers: Vec<i128> = match cycle_numbers(p, list, &self.tree, cell, neighbor, step) {
                        Some(numbers) => numbers,
                        None => Vec::new(),
                    };
                    return Some(Conflict { numbers });
                }
                None
            },
        }
    }
}

/// The sides of the corridors at the first pieces were followed.
spec fn followed(
    p: &PlacementProblem,
    list: Seq<Corridor>,
    choices: Seq<Option<(i128, i128)>>,
    flood: Flood,
    sides: Seq<Vec<Side>>,
    i: int,
    j: int,
) -> bool {
    forall|m: int|
        0 <= m < j ==> settled(
            p,
            list,
            choices,
            flood.origins@,
            (#[trigger] sides[flood.queue@[i] as int]@[m]).0 as int,
        )
}

/// Where the corridors with chosen vectors lead to from a piece.
pub open spec fn is_reach(
    p: &PlacementProblem,
    list: Seq<Corridor>,
    choices: Seq<Option<(i128, i128)>>,
    root: int,
    origins: Seq<Option<(i128, i128)>>,
) -> bool {
    &&& origins.len() == p.nodes
    &&& origins[root] == Some((0i128, 0i128))
    &&& forall|k: int|
        0 <= k < list.len() && choices[k] is Some && (reached(origins, start_of(p, #[trigger] list[k])) || reached(
            origins,
            end_of(p, list[k]),
        )) ==> settled(p, list, choices, origins, k)
    &&& forced(p, list, choices, root, origins)
    &&& forall|v: int| 0 <= v < p.nodes ==> near(#[trigger] origins[v])
    &&& forall|v: int| 0 <= v < p.nodes && v != root && (#[trigger] origins[v]) is Some ==> is_end(p, list, v)
}

/// The origin is not far away.
pub open spec fn near(origin: Option<(i128, i128)>) -> bool {
    within(origin, 0xf_ffff_ffff_ffff_ffff_ffff_ffff)
}

/// The links of all corridors are not too many.
proof fn lemma_small_reach(p: &PlacementProblem, list: Seq<Corridor>, origins: Seq<Option<(i128, i128)>>)
    requires
        p.wf(),
        corridors_wf(p, list),
    ensures
        0 <= reach_len(p, list, origins, list.len()) * p.limit <= 0xf_ffff_ffff_ffff_ffff_ffff_ffff,
{
    lemma_reach_len(p, list, origins, list.len());
    let len = reach_len(p, list, origins, list.len());
    if list.len() > 0 {
        assert(corridor_wf(p, list[list.len() - 1]));
    }
    lemma_limits(p);
    assert(0 <= len * p.limit <= 0xf_ffff_ffff_ffff_ffff_ffff_ffff) by (nonlinear_arith)
        requires
            0 <= len <= 2 * p.nodes,
            16 * p.nodes * p.limit <= 0x7f_ffff_ffff_ffff_ffff_ffff_ffff,
            p.limit >= 1,
    ;
}

/// Follows the chosen vectors from a piece on.
pub(crate) fn propagate_origins(
    p: &PlacementProblem,
    list: &Vec<Corridor>,
    choices: &Vec<Option<(i128, i128)>>,
    root: usize,
) -> (result: Result<Vec<Option<(i128, i128)>>, Conflict>)
    requires
        p.wf(),
        corridors_wf(p, list@),
        choices_wf(list@, choices@),
        root < p.nodes,
    ensures
        match result {
            Ok(origins) => {
                &&& is_reach(p, list@, choices@, root as int, origins@)
                &&& flood(p, list@, choices@, root) matches Ok(flooded) && flooded.origins == origins@
            },
            Err(conflict) => {
                &&& flood(p, list@, choices@, root) == Err::<FloodModel, Seq<i128>>(conflict.numbers@)
                &&& conflict.numbers@.len() == list@.len() || conflict.numbers@.len() == 0
                &&& small(conflict.numbers@)
                &&& forall|t: Seq<Vector>| !#[trigger] fits(p, list@, choices@, t)
            },
        },
{
    let sides: Vec<Vec<Side>> = collect_sides(p, list, choices);
    let mut origins: Vec<Option<(i128, i128)>> = Vec::new();
    let mut steps: Vec<Option<Step>> = Vec::new();
    let mut depth: Vec<usize> = Vec::new();
    let mut i: usize = 0;
    while i < p.nodes
        invariant
            i <= p.nodes,
            origins@.len() == i,
            steps@.len() == i,
            depth@.len() == i,
            forall|v: int| 0 <= v < i ==> (#[trigger] origins@[v]) is None,
            forall|v: int| 0 <= v < i ==> (#[trigger] steps@[v]) is None,
            forall|v: int| 0 <= v < i ==> #[trigger] depth@[v] == 0,
        decreases p.nodes - i,
    {
        origins.push(None);
        steps.push(None);
        depth.push(0);
        i += 1;
    }
    origins.set(root, Some((0, 0)));
    let mut queue: Vec<usize> = Vec::new();
    queue.push(root);
    let mut flood: Flood = Flood { origins, tree: Tree { steps, depth }, queue };
    let mut head: usize = 0;
    assert(flood.wf(p, list@, root as int)) by {
        assert(flood.queue@[0] == root);
    }
    proof {
        let start = flood_start(p, root);
        assert(flood.origins@ =~= start.origins);
        assert(flood.tree.steps@ =~= start.steps);
        assert(flood.tree.depth@ =~= start.depth);
        assert(flood.queue@ =~= start.queue);
    }
    while head < flood.queue.len()
        invariant
            p.wf(),
            corridors_wf(p, list@),
            choices_wf(list@, choices@),
            are_sides(p, list@, choices@, sides@, list@.len() as int),
            root < p.nodes,
            forall|v: int| 0 <= v < p.nodes ==> (#[trigger] sides@[v])@ == side_row(p, list@, choices@, v, list@.len()),
            flood_from(p, list@, choices@, flood.model(), head as int) == self::flood(p, list@, choices@, root),
            flood.wf(p, list@, root as int),
            forced(p, list@, choices@, root as int, flood.origins@),
            head <= flood.queue@.len(),
            forall|i: int|
                0 <= i < head ==> followed(
                    p,
                    list@,
                    choices@,
                    flood,
                    sides@,
                    i,
                    sides@[#[trigger] flood.queue@[i] as int]@.len() as int,
                ),
        decreases p.nodes - head,
    {
        proof {
            lemma_distinct_few(flood.queue@, p.nodes as nat);
            assert(flood.queue@[head as int] < p.nodes);
        }
        let cell: usize = flood.queue[head];
        let ghost row = sides@[cell as int]@;
        let ghost entry = follow_row(p, list@, choices@, flood.model(), cell, row, 0);
        let mut j: usize = 0;
        while j < sides[cell].len()
            invariant
                p.wf(),
                    corridors_wf(p, list@),
                choices_wf(list@, choices@),
                are_sides(p, list@, choices@, sides@, list@.len() as int),
                root < p.nodes,
                cell < p.nodes,
                flood.wf(p, list@, root as int),
                forced(p, list@, choices@, root as int, flood.origins@),
                head < flood.queue@.len(),
                head < p.nodes,
                cell == flood.queue@[head as int],
                j <= sides@[cell as int]@.len(),
                row == sides@[cell as int]@,
                entry == follow_row(p, list@, choices@, flood.model(), cell, row, j as int),
                match entry {
                    Ok(next) => flood_from(p, list@, choices@, next, head + 1) == self::flood(p, list@, choices@, root),
                    Err(numbers) => self::flood(p, list@, choices@, root) == Err::<FloodModel, Seq<i128>>(numbers),
                },
                forall|i: int|
                    0 <= i < head ==> followed(
                        p,
                        list@,
                        choices@,
                        flood,
                        sides@,
                        i,
                        sides@[#[trigger] flood.queue@[i] as int]@.len() as int,
                    ),
                followed(p, list@, choices@, flood, sides@, head as int, j as int),
            decreases sides@[cell as int]@.len() - j,
        {
            let side: Side = sides[cell][j];
            assert(lies_at(p, list@, sides@[cell as int]@[j as int], cell as int));
            let ghost before = flood;
            match flood.follow(p, list, choices, head, side, Ghost(root as int)) {
                Some(conflict) => {
                    return Err(conflict);
                },
                None => {},
            }
            proof {
                assert forall|i: int| 0 <= i <= head implies followed(
                    p,
                    list@,
                    choices@,
                    flood,
                    sides@,
                    i,
                    if i < head {
                        sides@[#[trigger] flood.queue@[i] as int]@.len() as int
                    } else {
                        j + 1
                    },
                ) by {
                    lemma_followed_stays(p, list@, choices@, before, flood, sides@, i, if i < head {
                        sides@[flood.queue@[i] as int]@.len() as int
                    } else {
                        j as int
                    });
                }
                assert(flood.queue@[head as int] == cell);
                assert(followed(p, list@, choices@, flood, sides@, head as int, j + 1));
            }
            j += 1;
        }
        head += 1;
    }
    proof {
        lemma_distinct_few(flood.queue@, p.nodes as nat);
        assert forall|k: int|
            0 <= k < list@.len() && choices@[k] is Some && (reached(
                flood.origins@,
                start_of(p, #[trigger] list@[k]),
            ) || reached(flood.origins@, end_of(p, list@[k]))) implies settled(
            p,
            list@,
            choices@,
            flood.origins@,
            k,
        ) by {
            let start = reached(flood.origins@, start_of(p, list@[k]));
            let v = side_node(p, list@, k, start);
            assert(corridor_wf(p, list@[k]));
            assert(p.link_wf(p.links@[list@[k].first as int]));
            assert(p.link_wf(p.links@[list@[k].last - 1]));
            assert(flood.origins@[v] is Some);
            assert(queued(flood.queue@, v));
            let i = choose|i: int| 0 <= i < flood.queue@.len() && #[trigger] flood.queue@[i] == v;
            assert(followed(
                p,
                list@,
                choices@,
                flood,
                sides@,
                i,
                sides@[flood.queue@[i] as int]@.len() as int,
            ));
            assert(has_side(p, list@, sides@, k, start));
            let m = choose|m: int|
                0 <= m < sides@[v]@.len() && (#[trigger] sides@[v]@[m]).0 == k && sides@[v]@[m].1 == start;
            assert(sides@[flood.queue@[i] as int]@[m].0 == k);
        }
        lemma_small_reach(p, list@, flood.origins@);
        assert forall|v: int| 0 <= v < p.nodes implies near(#[trigger] flood.origins@[v]) by {
            assert(within(
                flood.origins@[v],
                reach_len(p, list@, flood.origins@, list@.len()) * p.limit,
            ));
        }
    }
    Ok(flood.origins)
}

proof fn lemma_followed_stays(
    p: &PlacementProblem,
    list: Seq<Corridor>,
    choices: Seq<Option<(i128, i128)>>,
    before: Flood,
    after: Flood,
    sides: Seq<Vec<Side>>,
    i: int,
    j: int,
)
    requires
        p.wf(),
        corridors_wf(p, list),
        are_sides(p, list, choices, sides, list.len() as int),
        0 <= i < before.queue@.len() <= after.queue@.len(),
        before.queue@[i] == after.queue@[i],
        before.queue@[i] < p.nodes,
        j <= sides[before.queue@[i] as int]@.len(),
        followed(p, list, choices, before, sides, i, j),
        forall|v: int| 0 <= v < p.nodes && (#[trigger] before.origins@[v]) is Some ==> after.origins@[v] == before.origins@[v],
    ensures
        followed(p, list, choices, after, sides, i, j),
{
    assert forall|m: int| 0 <= m < j implies settled(
        p,
        list,
        choices,
        after.origins@,
        (#[trigger] sides[after.queue@[i] as int]@[m]).0 as int,
    ) by {
        let k = sides[before.queue@[i] as int]@[m].0 as int;
        assert(lies_at(p, list, sides[before.queue@[i] as int]@[m], before.queue@[i] as int));
        assert(settled(p, list, choices, before.origins@, k));
        assert(corridor_wf(p, list[k]));
        assert(p.link_wf(p.links@[list[k].first as int]));
        assert(p.link_wf(p.links@[list[k].last - 1]));
        assert(before.origins@[start_of(p, list[k])] is Some);
        assert(before.origins@[end_of(p, list[k])] is Some);
    }
}

/// A piece between two links of a corridor.
pub open spec fn interior(p: &PlacementProblem, c: Corridor, v: int) -> bool {
    exists|l: int| c.first <= l && l + 1 < c.last && (#[trigger] p.links@[l]).to == v
}

/// Only links of the corridor end at a piece between its links, and no corridor starts or
/// ends there.
proof fn lemma_interior(p: &PlacementProblem, list: Seq<Corridor>, k: int, v: int)
    requires
        p.wf(),
        corridors_wf(p, list),
        0 <= k < list.len(),
        interior(p, list[k], v),
    ensures
        forall|m: int|
            0 <= m < p.links@.len() && #[trigger] p.touches(m, v) ==> list[k].first <= m < list[k].last,
        !is_end(p, list, v),
{
    let c = list[k];
    assert(corridor_wf(p, c));
    let l = choose|l: int| c.first <= l && l + 1 < c.last && (#[trigger] p.links@[l]).to == v;
    assert(chained_at(p, l));
    if is_end(p, list, v) {
        let j = choose|j: int| 0 <= j < list.len() && (start_of(p, #[trigger] list[j]) == v || end_of(p, list[j]) == v);
        let d = list[j];
        assert(corridor_wf(p, d));
        if start_of(p, d) == v {
            let m = d.first as int;
            assert(p.touches(m, v));
            assert(m == l || m == l + 1);
            assert(p.link_wf(p.links@[m]));
            if m == l {
                // the link would both start and end at the piece
                assert(p.links@[l].from == v);
            } else {
                lemma_same_corridor(p, list, k, j, m);
            }
        } else {
            let m = d.last - 1;
            assert(p.touches(m, v));
            assert(m == l || m == l + 1);
            assert(p.link_wf(p.links@[m]));
            if m == l + 1 {
                assert(p.links@[l].to == p.links@[l + 1].from);
            } else {
                lemma_same_corridor(p, list, k, j, m);
            }
        }
    }
}

/// Corridors do not overlap.
proof fn lemma_same_corridor(p: &PlacementProblem, list: Seq<Corridor>, j: int, k: int, l: int)
    requires
        corridors_wf(p, list),
        0 <= j < list.len(),
        0 <= k < list.len(),
        list[j].first <= l < list[j].last,
        list[k].first <= l < list[k].last,
    ensures
        j == k,
{
    if j < k {
        lemma_corridor_order(p, list, j, k);
    } else if k < j {
        lemma_corridor_order(p, list, k, j);
    }
}

proof fn lemma_corridor_order(p: &PlacementProblem, list: Seq<Corridor>, j: int, k: int)
    requires
        corridors_wf(p, list),
        0 <= j < k < list.len(),
    ensures
        list[j].last <= list[k].first,
    decreases k - j,
{
    assert(corridor_wf(p, list[k - 1]));
    assert(list[k - 1].last == list[k].first);
    if j < k - 1 {
        lemma_corridor_order(p, list, j, k - 1);
    }
}

/// The corridor of a link, among the first ones.
proof fn lemma_corridor_of(p: &PlacementProblem, list: Seq<Corridor>, l: int, n: int) -> (k: int)
    requires
        corridors_wf(p, list),
        0 < n <= list.len(),
        0 <= l < list[n - 1].last,
    ensures
        0 <= k < n,
        list[k].first <= l < list[k].last,
    decreases n,
{
    if list[n - 1].first <= l {
        n - 1
    } else {
        assert(n > 1);
        assert(list[n - 2].last == list[n - 1].first);
        lemma_corridor_of(p, list, l, n - 1)
    }
}

/// Both ends of the link have origins, and the link allows the vector between them.
spec fn link_set(p: &PlacementProblem, origins: Seq<Option<(i128, i128)>>, l: int) -> bool {
    let link = p.links@[l];
    &&& origins[link.from as int] is Some
    &&& origins[link.to as int] is Some
    &&& corridors::holds(link.deltas@, link_gap(p, origins, l))
}

/// The vector between the origins at the ends of a link.
spec fn link_gap(p: &PlacementProblem, origins: Seq<Option<(i128, i128)>>, l: int) -> Vector {
    let link = p.links@[l];
    corridors::minus(
        corridors::vector(origins[link.to as int]->Some_0),
        corridors::vector(origins[link.from as int]->Some_0),
    )
}

/// The vector between the ends of the link is the one that it prefers.
spec fn link_first(p: &PlacementProblem, origins: Seq<Option<(i128, i128)>>, l: int) -> bool {
    link_gap(p, origins, l) == corridors::vector(p.links@[l].deltas@[0])
}

/// The origin is within the range of coordinates.
pub open spec fn apart(origin: Option<(i128, i128)>) -> bool {
    origin matches Some(o) ==> -0x1f_ffff_ffff_ffff_ffff_ffff_ffff <= o.0 <= 0x1f_ffff_ffff_ffff_ffff_ffff_ffff && -0x1f_ffff_ffff_ffff_ffff_ffff_ffff <= o.1 <= 0x1f_ffff_ffff_ffff_ffff_ffff_ffff
}

/// Both ends of the link have origins, and stand from each other by a vector that it allows.
spec fn link_parted(p: &PlacementProblem, origins: Seq<Option<(i128, i128)>>, l: int, part: (i128, i128)) -> bool {
    &&& link_set(p, origins, l)
    &&& link_gap(p, origins, l) == corridors::vector(part)
    &&& apart(origins[p.links@[l].to as int])
}

proof fn lemma_parted_stays(
    p: &PlacementProblem,
    origins: Seq<Option<(i128, i128)>>,
    l: int,
    m: int,
    node: int,
    origin: (i128, i128),
    part: (i128, i128),
)
    requires
        p.wf(),
        origins.len() == p.nodes,
        0 <= node < p.nodes,
        0 <= m < l < p.links@.len(),
        private(p, l, node),
        link_parted(p, origins, m, part),
    ensures
        link_parted(p, origins.update(node, Some(origin)), m, part),
{
    assert(p.link_wf(p.links@[m]));
    if p.touches(m, node) {
        assert(m == l || m == l + 1);
    }
}

/// Sets the origins of the pieces between the links of a corridor.
fn reconstruct_corridor(
    p: &PlacementProblem,
    list: &Vec<Corridor>,
    k: usize,
    choice: (i128, i128),
    origins: &mut Vec<Option<(i128, i128)>>,
)
    requires
        p.wf(),
        corridors_wf(p, list@),
        k < list@.len(),
        corridors::holds(list@[k as int].domain@, corridors::vector(choice)),
        old(origins)@.len() == p.nodes,
        old(origins)@[start_of(p, list@[k as int])] is Some,
        old(origins)@[end_of(p, list@[k as int])] is Some,
        near(old(origins)@[start_of(p, list@[k as int])]),
        near(old(origins)@[end_of(p, list@[k as int])]),
        corridors::minus(
            corridors::vector(old(origins)@[end_of(p, list@[k as int])]->Some_0),
            corridors::vector(old(origins)@[start_of(p, list@[k as int])]->Some_0),
        ) == corridors::vector(choice),
    ensures
        final(origins)@.len() == p.nodes,
        forall|l: int|
            list@[k as int].first <= l < list@[k as int].last ==> #[trigger] link_set(p, final(origins)@, l),
        corridors::vector(choice) == corridors::vector(list@[k as int].domain@[0]) ==> forall|l: int|
            list@[k as int].first <= l < list@[k as int].last ==> #[trigger] link_first(p, final(origins)@, l),
        forall|v: int|
            0 <= v < p.nodes && !#[trigger] interior(p, list@[k as int], v) ==> final(origins)@[v] == old(origins)@[v],
        forall|v: int|
            0 <= v < p.nodes && #[trigger] interior(p, list@[k as int], v) ==> apart(final(origins)@[v]),
{
    let ghost c = list@[k as int];
    assert(corridor_wf(p, c));
    let first: usize = list[k].first;
    let last: usize = list[k].last;
    let lists: Vec<Vec<(i128, i128)>> = copy_lists(p, first, last);
    let ghost views = corridors::list_views(lists@);
    let parts: Vec<(i128, i128)> = split_corridor(&lists, p.limit, choice);
    let ghost start = start_of(p, c);
    let ghost end = end_of(p, c);
    let ghost before = origins@;
    proof {
        assert(p.link_wf(p.links@[first as int]));
        assert(p.link_wf(p.links@[last - 1]));
        assert(!interior(p, c, start)) by {
            if interior(p, c, start) {
                lemma_interior(p, list@, k as int, start);
                assert(start_of(p, list@[k as int]) == start);
            }
        }
        assert(!interior(p, c, end)) by {
            if interior(p, c, end) {
                lemma_interior(p, list@, k as int, end);
                assert(end_of(p, list@[k as int]) == end);
            }
        }
    }
    let mut current: (i128, i128) = match origins[p.links[first].from] {
        Some(origin) => origin,
        None => (0, 0),
    };
    let ghost base = corridors::vector(current);
    let mut l: usize = first;
    while l + 1 < last
        invariant
            p.wf(),
            chained(p, first as int, last as int),
            c.first == first,
            c.last == last,
            first <= l < last <= p.links@.len(),
            parts@.len() == last - first,
            lists@.len() == last - first,
            views == corridors::list_views(lists@),
            views == delta_lists(p, first as int, last as int),
            corridors::are_parts(views, parts@, corridors::vector(choice)),
            corridors::proper(views, p.limit as int),
            lists@.len() * p.limit <= 0xf_ffff_ffff_ffff_ffff_ffff_ffff,
            before.len() == p.nodes,
            origins@.len() == p.nodes,
            start == start_of(p, c),
            end == end_of(p, c),
            !interior(p, c, start),
            !interior(p, c, end),
            before[start] is Some,
            near(before[start]),
            base == corridors::vector(before[start]->Some_0),
            origins@[p.links@[l as int].from as int] == Some(current),
            corridors::vector(current) == corridors::plus(base, corridors::part_sum(parts@, (l - first) as nat)),
            -((l - first) * p.limit) <= current.0 - base.0 <= (l - first) * p.limit,
            -((l - first) * p.limit) <= current.1 - base.1 <= (l - first) * p.limit,
            forall|m: int| first <= m < l ==> #[trigger] link_parted(p, origins@, m, parts@[m - first]),
            forall|v: int| 0 <= v < p.nodes && !#[trigger] interior(p, c, v) ==> origins@[v] == before[v],
        decreases last - l,
    {
        let ghost held = origins@;
        let node: usize = p.links[l].to;
        let part: (i128, i128) = parts[l - first];
        proof {
            assert(p.link_wf(p.links@[l as int]));
            assert(p.links@[l as int].to == node);
            assert(interior(p, c, node as int));
            let i = l - first;
            assert(corridors::holds(views[i], corridors::vector(parts@[i])));
            assert(views[i] == p.links@[first + i].deltas@);
            let e = choose|e: int|
                0 <= e < views[i].len() && corridors::vector(#[trigger] views[i][e]) == corridors::vector(parts@[i]);
            assert(corridors::short(views[i], p.limit as int));
            assert(-p.limit <= views[i][e].0 <= p.limit);
            assert((i + 1) * p.limit == i * p.limit + p.limit) by (nonlinear_arith);
            assert((i + 1) * p.limit <= lists@.len() * p.limit) by (nonlinear_arith)
                requires
                    i + 1 <= lists@.len(),
                    p.limit >= 1,
            ;
        }
        current = (current.0 + part.0, current.1 + part.1);
        origins.set(node, Some(current));
        proof {
            assert(chained_at(p, l as int));
            assert(corridors::part_sum(parts@, (l + 1 - first) as nat) == corridors::plus(
                corridors::part_sum(parts@, (l - first) as nat),
                corridors::vector(parts@[l - first]),
            ));
            assert(p.links@[l as int].from != node);
            assert forall|m: int| first <= m < l + 1 implies #[trigger] link_parted(
                p,
                origins@,
                m,
                parts@[m - first],
            ) by {
                if m < l {
                    assert(link_parted(p, held, m, parts@[m - first]));
                    lemma_parted_stays(p, held, l as int, m, node as int, current, parts@[m - first]);
                }
            }
            assert(p.links@[l as int].to == p.links@[l + 1].from);
        }
        l += 1;
    }
    proof {
        let i = l - first;
        assert(l == last - 1);
        assert(corridors::holds(views[i], corridors::vector(parts@[i])));
        assert(views[i] == p.links@[first + i].deltas@);
        assert(corridors::part_sum(parts@, (i + 1) as nat) == corridors::plus(
            corridors::part_sum(parts@, i as nat),
            corridors::vector(parts@[i]),
        ));
        assert(origins@[end] == before[end]);
        assert(link_gap(p, origins@, l as int) == corridors::vector(parts@[i]));
        assert forall|m: int| first <= m < last implies #[trigger] link_set(p, origins@, m) by {
            if m < l {
                assert(link_parted(p, origins@, m, parts@[m - first]));
            }
        }
        if corridors::vector(choice) == corridors::vector(c.domain@[0]) {
            assert forall|m: int| first <= m < last implies #[trigger] link_first(p, origins@, m) by {
                if m < l {
                    assert(link_parted(p, origins@, m, parts@[m - first]));
                }
                assert(parts@[m - first] == lists@[m - first]@[0]);
                assert(views[m - first] == lists@[m - first]@);
            }
        }
        assert forall|v: int| 0 <= v < p.nodes && #[trigger] interior(p, c, v) implies apart(origins@[v]) by {
            let m = choose|m: int| c.first <= m && m + 1 < c.last && (#[trigger] p.links@[m]).to == v;
            assert(link_parted(p, origins@, m, parts@[m - first]));
        }
    }
}

/// A vector was chosen for every corridor.
pub open spec fn complete(choices: Seq<Option<(i128, i128)>>) -> bool {
    forall|k: int| 0 <= k < choices.len() ==> (#[trigger] choices[k]) is Some
}

/// The chosen vectors are those that the corridors prefer.
pub open spec fn favourite(list: Seq<Corridor>, choices: Seq<Option<(i128, i128)>>) -> bool {
    forall|k: int| 0 <= k < list.len() ==> #[trigger] choices[k] == Some(list[k].domain@[0])
}

/// The origins of all pieces.
pub open spec fn vectors(origins: Seq<(i128, i128)>) -> Seq<Vector> {
    Seq::new(origins.len(), |v: int| corridors::vector(origins[v]))
}

/// The link is in a corridor whose start was reached.
spec fn on_reached(p: &PlacementProblem, list: Seq<Corridor>, origins: Seq<Option<(i128, i128)>>, l: int) -> bool {
    exists|k: int|
        0 <= k < list.len() && (#[trigger] list[k]).first <= l < list[k].last && origins[start_of(p, list[k])] is Some
}

/// The pieces that the reached corridors touch.
spec fn reached_set(p: &PlacementProblem, list: Seq<Corridor>, origins: Seq<Option<(i128, i128)>>, root: int) -> Set<int> {
    Set::new(
        |v: int|
            v == root || exists|l: int|
                0 <= l < p.links@.len() && #[trigger] p.touches(l, v) && on_reached(p, list, origins, l),
    )
}

/// Where an end was not reached, the pieces do not hang together.
proof fn lemma_unreached(
    p: &PlacementProblem,
    list: Seq<Corridor>,
    choices: Seq<Option<(i128, i128)>>,
    root: int,
    origins: Seq<Option<(i128, i128)>>,
    v: int,
)
    requires
        p.wf(),
        corridors_wf(p, list),
        choices.len() == list.len(),
        complete(choices),
        0 <= root < p.nodes,
        is_end(p, list, root) || list.len() == 0,
        is_reach(p, list, choices, root, origins),
        0 <= v < p.nodes,
        is_end(p, list, v),
        origins[v] is None,
    ensures
        !p.connected(),
{
    let set = reached_set(p, list, origins, root);
    assert(p.closed(set)) by {
        assert forall|l: int| 0 <= l < p.links@.len() implies (set.contains((#[trigger] p.links@[l]).from as int)
            <==> set.contains(p.links@[l].to as int)) by {
            let k = lemma_corridor_of(p, list, l, list.len() as int);
            if origins[start_of(p, list[k])] is Some {
                assert(on_reached(p, list, origins, l));
                assert(p.touches(l, p.links@[l].from as int));
                assert(p.touches(l, p.links@[l].to as int));
            } else {
                lemma_not_reached(p, list, choices, root, origins, k, l, p.links@[l].from as int);
                lemma_not_reached(p, list, choices, root, origins, k, l, p.links@[l].to as int);
            }
        }
    }
    assert(set.contains(root));
    if p.connected() {
        assert(p.all_in(set));
        assert(set.contains(v));
        if v != root {
            let l = choose|l: int|
                0 <= l < p.links@.len() && #[trigger] p.touches(l, v) && on_reached(p, list, origins, l);
            let k = choose|k: int|
                0 <= k < list.len() && (#[trigger] list[k]).first <= l < list[k].last && origins[start_of(p, list[k])] is Some;
            assert(reached(origins, start_of(p, list[k])));
            assert(choices[k] is Some);
            assert(settled(p, list, choices, origins, k));
            assert(corridor_wf(p, list[k]));
            if v != start_of(p, list[k]) && v != end_of(p, list[k]) {
                lemma_between(p, list, k, l, v);
                lemma_interior(p, list, k, v);
            }
        }
    }
}

/// A piece at a link of a corridor is at its start, at its end, or between its links.
proof fn lemma_between(p: &PlacementProblem, list: Seq<Corridor>, k: int, l: int, v: int)
    requires
        p.wf(),
        corridors_wf(p, list),
        0 <= k < list.len(),
        list[k].first <= l < list[k].last,
        p.touches(l, v),
        v != start_of(p, list[k]),
        v != end_of(p, list[k]),
    ensures
        interior(p, list[k], v),
{
    let c = list[k];
    assert(corridor_wf(p, c));
    if p.links@[l].to == v {
        assert(l + 1 < c.last);
    } else {
        assert(l > c.first);
        assert(chained_at(p, l - 1));
        assert(p.links@[l - 1].to == v);
    }
}

/// No piece at a link of a corridor that was not reached is in the set.
proof fn lemma_not_reached(
    p: &PlacementProblem,
    list: Seq<Corridor>,
    choices: Seq<Option<(i128, i128)>>,
    root: int,
    origins: Seq<Option<(i128, i128)>>,
    k: int,
    l: int,
    v: int,
)
    requires
        p.wf(),
        corridors_wf(p, list),
        choices.len() == list.len(),
        complete(choices),
        0 <= root < p.nodes,
        is_end(p, list, root),
        is_reach(p, list, choices, root, origins),
        0 <= k < list.len(),
        list[k].first <= l < list[k].last,
        origins[start_of(p, list[k])] is None,
        p.touches(l, v),
    ensures
        !reached_set(p, list, origins, root).contains(v),
{
    let set = reached_set(p, list, origins, root);
    assert(corridor_wf(p, list[k]));
    assert(p.link_wf(p.links@[l]));
    if set.contains(v) {
        if v != start_of(p, list[k]) && v != end_of(p, list[k]) {
            lemma_between(p, list, k, l, v);
            lemma_interior(p, list, k, v);
            assert(v != root);
            let m = choose|m: int|
                0 <= m < p.links@.len() && #[trigger] p.touches(m, v) && on_reached(p, list, origins, m);
            let j = choose|j: int|
                0 <= j < list.len() && (#[trigger] list[j]).first <= m < list[j].last && origins[start_of(p, list[j])] is Some;
            lemma_same_corridor(p, list, k, j, m);
        } else {
            assert(origins[v] is Some) by {
                if v != root {
                    let m = choose|m: int|
                        0 <= m < p.links@.len() && #[trigger] p.touches(m, v) && on_reached(p, list, origins, m);
                    let j = choose|j: int|
                        0 <= j < list.len() && (#[trigger] list[j]).first <= m < list[j].last && origins[start_of(
                            p,
                            list[j],
                        )] is Some;
                    assert(reached(origins, start_of(p, list[j])));
                    assert(choices[j] is Some);
                    assert(settled(p, list, choices, origins, j));
                    if v != start_of(p, list[j]) && v != end_of(p, list[j]) {
                        lemma_between(p, list, j, m, v);
                        lemma_interior(p, list, j, v);
                        assert(start_of(p, list[k]) == v || end_of(p, list[k]) == v);
                    }
                }
            }
            assert(reached(origins, start_of(p, list[k])) || reached(origins, end_of(p, list[k])));
            assert(choices[k] is Some);
            assert(settled(p, list, choices, origins, k));
        }
    }
}

/// The first piece at which a corridor starts or ends; the first piece if there are none.
pub open spec fn is_first_end(p: &PlacementProblem, list: Seq<Corridor>, root: usize) -> bool {
    &&& list.len() == 0 ==> root == 0
    &&& list.len() > 0 ==> is_end(p, list, root as int)
    &&& forall|v: int| 0 <= v < root ==> !#[trigger] is_end(p, list, v)
}

/// The first piece at which a corridor starts or ends; the first piece if there are none.
pub open spec fn first_root(p: &PlacementProblem, list: Seq<Corridor>) -> usize {
    choose|root: usize| is_first_end(p, list, root)
}

/// The first piece at which a corridor starts or ends; the first piece, if there are no
/// corridors.
pub(crate) fn first_end(p: &PlacementProblem, list: &Vec<Corridor>) -> (root: usize)
    requires
        p.wf(),
        corridors_wf(p, list@),
    ensures
        root < p.nodes,
        is_end(p, list@, root as int) || list@.len() == 0,
        root == first_root(p, list@),
{
    if list.len() == 0 {
        assert(is_first_end(p, list@, 0));
        return 0;
    }
    let mut k: usize = 0;
    proof {
        assert(corridor_wf(p, list@[0]));
        assert(p.link_wf(p.links@[list@[0].first as int]));
    }
    let mut root: usize = p.links[list[0].first].from;
    assert(start_of(p, list@[0]) == root);
    while k < list.len()
        invariant
            p.wf(),
            corridors_wf(p, list@),
            k <= list@.len(),
            root < p.nodes,
            is_end(p, list@, root as int),
            forall|j: int|
                0 <= j < k ==> root <= start_of(p, #[trigger] list@[j]) && root <= end_of(p, list@[j]),
        decreases list.len() - k,
    {
        proof {
            assert(corridor_wf(p, list@[k as int]));
            assert(p.link_wf(p.links@[list@[k as int].first as int]));
            assert(p.link_wf(p.links@[list@[k as int].last - 1]));
        }
        let start: usize = p.links[list[k].first].from;
        let end: usize = p.links[list[k].last - 1].to;
        assert(start_of(p, list@[k as int]) == start && end_of(p, list@[k as int]) == end);
        if start < root {
            root = start;
        }
        if end < root {
            root = end;
        }
        k += 1;
    }
    proof {
        assert forall|v: int| 0 <= v < root implies !#[trigger] is_end(p, list@, v) by {}
        assert(is_first_end(p, list@, root));
        let other = first_root(p, list@);
        assert(is_first_end(p, list@, other));
        if other < root {
            assert(is_end(p, list@, other as int));
        }
        if root < other {
            assert(is_end(p, list@, root as int));
        }
    }
    root
}

/// The piece gets an origin: it was reached, or lies between two links of a corridor.
pub open spec fn is_covered(
    p: &PlacementProblem,
    list: Seq<Corridor>,
    origins: Seq<Option<(i128, i128)>>,
    v: int,
    n: int,
) -> bool {
    origins[v] is Some || exists|k: int| 0 <= k < n && #[trigger] interior(p, list[k], v)
}

/// All corridors start at pieces that were reached, and all pieces get origins.
pub open spec fn covers(p: &PlacementProblem, list: Seq<Corridor>, origins: Seq<Option<(i128, i128)>>) -> bool {
    &&& forall|k: int| 0 <= k < list.len() ==> origins[start_of(p, #[trigger] list[k])] is Some
    &&& forall|v: int| 0 <= v < p.nodes ==> #[trigger] is_covered(p, list, origins, v, list.len() as int)
}

/// The piece from which corridors are followed stands at the zero vector.
pub open spec fn is_rooted(p: &PlacementProblem, list: Seq<Corridor>, origins: Seq<(i128, i128)>) -> bool {
    vectors(origins)[first_root(p, list) as int] == (0int, 0int)
}

/// Why the chosen vectors of all corridors give no placement: the cycle that contradicts them,
/// or none if they do not reach all pieces. Nothing if they give one.
pub open spec fn contradiction(
    p: &PlacementProblem,
    list: Seq<Corridor>,
    choices: Seq<Option<(i128, i128)>>,
) -> Option<Seq<i128>> {
    match flood(p, list, choices, first_root(p, list)) {
        Ok(flooded) => if covers(p, list, flooded.origins) {
            None
        } else {
            Some(Seq::empty())
        },
        Err(numbers) => Some(numbers),
    }
}

/// The pieces between the links of one more corridor get origins.
proof fn lemma_covered_more(
    p: &PlacementProblem,
    list: Seq<Corridor>,
    ends: Seq<Option<(i128, i128)>>,
    before: Seq<Option<(i128, i128)>>,
    after: Seq<Option<(i128, i128)>>,
    k: int,
)
    requires
        0 <= k < list.len(),
        forall|v: int| 0 <= v < p.nodes ==> ((#[trigger] before[v]) is Some <==> is_covered(p, list, ends, v, k)),
        forall|v: int| 0 <= v < p.nodes && !#[trigger] interior(p, list[k], v) ==> after[v] == before[v],
        forall|l: int| list[k].first <= l < list[k].last ==> #[trigger] link_set(p, after, l),
    ensures
        forall|v: int| 0 <= v < p.nodes ==> ((#[trigger] after[v]) is Some <==> is_covered(p, list, ends, v, k + 1)),
{
    let c = list[k];
    assert forall|v: int| 0 <= v < p.nodes implies ((#[trigger] after[v]) is Some <==> is_covered(
        p,
        list,
        ends,
        v,
        k + 1,
    )) by {
        assert(before[v] is Some <==> is_covered(p, list, ends, v, k));
        if interior(p, list[k], v) {
            let l = choose|l: int| c.first <= l && l + 1 < c.last && (#[trigger] p.links@[l]).to == v;
            assert(link_set(p, after, l));
        } else {
            if is_covered(p, list, ends, v, k + 1) && ends[v] is None {
                let q = choose|q: int| 0 <= q < k + 1 && #[trigger] interior(p, list[q], v);
                assert(interior(p, list[q], v));
            }
            if is_covered(p, list, ends, v, k) && ends[v] is None {
                let q = choose|q: int| 0 <= q < k && #[trigger] interior(p, list[q], v);
                assert(interior(p, list[q], v));
            }
        }
    }
}

/// Where the links of all corridors are set, all links are.
proof fn lemma_links_set(
    p: &PlacementProblem,
    list: Seq<Corridor>,
    choices: Seq<Option<(i128, i128)>>,
    origins: Seq<Option<(i128, i128)>>,
)
    requires
        p.wf(),
        corridors_wf(p, list),
        forall|j: int, l: int|
            0 <= j < list.len() && (#[trigger] list[j]).first <= l < list[j].last ==> #[trigger] link_set(
                p,
                origins,
                l,
            ),
        favourite(list, choices) ==> forall|j: int, l: int|
            0 <= j < list.len() && (#[trigger] list[j]).first <= l < list[j].last ==> #[trigger] link_first(
                p,
                origins,
                l,
            ),
    ensures
        forall|l: int|
            0 <= l < p.links@.len() ==> link_set(p, origins, l) && (favourite(list, choices) ==> link_first(
                p,
                origins,
                l,
            )) && #[trigger] p.link_wf(p.links@[l]),
{
    assert forall|l: int| 0 <= l < p.links@.len() implies link_set(p, origins, l) && (favourite(list, choices)
        ==> link_first(p, origins, l)) && #[trigger] p.link_wf(p.links@[l]) by {
        let j = lemma_corridor_of(p, list, l, list.len() as int);
        assert(list[j].first <= l < list[j].last);
        assert(link_set(p, origins, l));
    }
}

/// Origins that keep the chosen vectors and all links are those of a placement.
proof fn lemma_solved(
    p: &PlacementProblem,
    list: Seq<Corridor>,
    choices: Seq<Option<(i128, i128)>>,
    root: usize,
    ends: Seq<Option<(i128, i128)>>,
    origins: Seq<Option<(i128, i128)>>,
    solved: Seq<(i128, i128)>,
)
    requires
        p.wf(),
        corridors_wf(p, list),
        choices_wf(list, choices),
        complete(choices),
        root < p.nodes,
        root == first_root(p, list),
        is_reach(p, list, choices, root as int, ends),
        flood(p, list, choices, root) matches Ok(flooded) && flooded.origins == ends,
        forall|j: int| 0 <= j < list.len() ==> ends[start_of(p, #[trigger] list[j])] is Some,
        forall|u: int|
            0 <= u < p.nodes ==> ((#[trigger] origins[u]) is Some <==> is_covered(p, list, ends, u, list.len() as int)),
        origins.len() == p.nodes,
        forall|v: int| 0 <= v < p.nodes && #[trigger] is_end(p, list, v) ==> origins[v] == ends[v],
        origins[root as int] == Some((0i128, 0i128)),
        forall|u: int| 0 <= u < p.nodes ==> apart(#[trigger] origins[u]),
        forall|l: int|
            0 <= l < p.links@.len() ==> link_set(p, origins, l) && (favourite(list, choices) ==> link_first(
                p,
                origins,
                l,
            )) && #[trigger] p.link_wf(p.links@[l]),
        solved.len() == p.nodes,
        forall|u: int| 0 <= u < p.nodes ==> origins[u] == Some(#[trigger] solved[u]),
    ensures
        contradiction(p, list, choices) is None,
        fits(p, list, choices, vectors(solved)),
        is_rooted(p, list, solved),
        p.coherent(vectors(solved)),
        exists|v: int| 0 <= v < p.nodes && #[trigger] vectors(solved)[v] == (0int, 0int),
        favourite(list, choices) ==> p.preferred(vectors(solved)),
        forall|v: int| 0 <= v < p.nodes ==> apart(Some(#[trigger] solved[v])),
{
    let t = vectors(solved);
    assert forall|l: int| 0 <= l < p.links@.len() implies p.link_holds(t, #[trigger] p.links@[l]) && (favourite(
        list,
        choices,
    ) ==> p.link_prefers(t, p.links@[l])) by {
        assert(p.link_wf(p.links@[l]));
        assert(origins[p.links@[l].from as int] == Some(solved[p.links@[l].from as int]));
        assert(origins[p.links@[l].to as int] == Some(solved[p.links@[l].to as int]));
    }
    assert(covers(p, list, ends)) by {
        assert forall|v: int| 0 <= v < p.nodes implies #[trigger] is_covered(
            p,
            list,
            ends,
            v,
            list.len() as int,
        ) by {
            assert(origins[v] == Some(solved[v]));
        }
    }
    assert forall|q: int| 0 <= q < list.len() implies (#[trigger] choices[q] matches Some(d) ==> gap(p, list, t, q)
        == corridors::vector(d)) by {
        let c = list[q];
        assert(corridor_wf(p, c));
        assert(p.link_wf(p.links@[c.first as int]));
        assert(p.link_wf(p.links@[c.last - 1]));
        let a = start_of(p, list[q]);
        let b = end_of(p, list[q]);
        assert(is_end(p, list, a) && is_end(p, list, b));
        assert(ends[start_of(p, list[q])] is Some);
        assert(reached(ends, a));
        assert(settled(p, list, choices, ends, q));
        assert(origins[a] == Some(solved[a]) && origins[b] == Some(solved[b]));
    }
    assert(origins[root as int] == Some(solved[root as int]));
    assert(t[root as int] == (0int, 0int));
    assert forall|u: int| 0 <= u < p.nodes implies apart(Some(#[trigger] solved[u])) by {
        assert(apart(origins[u]));
    }
}

/// The pieces between the links of the first `k` corridors have origins.
#[verifier::opaque]
spec fn is_rebuilt(
    p: &PlacementProblem,
    list: Seq<Corridor>,
    choices: Seq<Option<(i128, i128)>>,
    root: int,
    ends: Seq<Option<(i128, i128)>>,
    origins: Seq<Option<(i128, i128)>>,
    k: int,
) -> bool {
    &&& forall|j: int| 0 <= j < k ==> ends[start_of(p, #[trigger] list[j])] is Some
    &&& forall|v: int| 0 <= v < p.nodes ==> ((#[trigger] origins[v]) is Some <==> is_covered(p, list, ends, v, k))
    &&& origins.len() == p.nodes
    &&& forall|v: int| 0 <= v < p.nodes && #[trigger] is_end(p, list, v) ==> origins[v] == ends[v]
    &&& origins[root] == Some((0i128, 0i128))
    &&& forall|v: int| 0 <= v < p.nodes ==> apart(#[trigger] origins[v])
    &&& forall|j: int, l: int|
        0 <= j < k && (#[trigger] list[j]).first <= l < list[j].last ==> #[trigger] link_set(p, origins, l)
    &&& favourite(list, choices) ==> forall|j: int, l: int|
        0 <= j < k && (#[trigger] list[j]).first <= l < list[j].last ==> #[trigger] link_first(p, origins, l)
}

/// The pieces between the links of one more corridor get their origins.
proof fn lemma_rebuilt_more(
    p: &PlacementProblem,
    list: Seq<Corridor>,
    choices: Seq<Option<(i128, i128)>>,
    root: int,
    ends: Seq<Option<(i128, i128)>>,
    before: Seq<Option<(i128, i128)>>,
    after: Seq<Option<(i128, i128)>>,
    k: int,
)
    requires
        p.wf(),
        corridors_wf(p, list),
        choices_wf(list, choices),
        0 <= root < p.nodes,
        is_end(p, list, root),
        0 <= k < list.len(),
        is_rebuilt(p, list, choices, root, ends, before, k),
        ends[start_of(p, list[k])] is Some,
        after.len() == p.nodes,
        forall|l: int| list[k].first <= l < list[k].last ==> #[trigger] link_set(p, after, l),
        favourite(list, choices) ==> forall|l: int|
            list[k].first <= l < list[k].last ==> #[trigger] link_first(p, after, l),
        forall|v: int| 0 <= v < p.nodes && !#[trigger] interior(p, list[k], v) ==> after[v] == before[v],
        forall|v: int| 0 <= v < p.nodes && #[trigger] interior(p, list[k], v) ==> apart(after[v]),
    ensures
        is_rebuilt(p, list, choices, root, ends, after, k + 1),
{
    reveal(is_rebuilt);
    let c = list[k];
    lemma_covered_more(p, list, ends, before, after, k);
    assert forall|v: int| 0 <= v < p.nodes && #[trigger] is_end(p, list, v) implies after[v] == ends[v] by {
        if interior(p, c, v) {
            lemma_interior(p, list, k, v);
        }
    }
    assert(is_end(p, list, root));
    assert forall|v: int| 0 <= v < p.nodes implies apart(#[trigger] after[v]) by {
        if !interior(p, c, v) {
            assert(apart(before[v]));
        }
    }
    assert forall|j: int, l: int|
        0 <= j < k + 1 && (#[trigger] list[j]).first <= l < list[j].last implies #[trigger] link_set(
        p,
        after,
        l,
    ) && (favourite(list, choices) ==> link_first(p, after, l)) by {
        assert(corridor_wf(p, list[j]));
        assert(p.link_wf(p.links@[l]));
        if j < k {
            assert(link_set(p, before, l));
            if favourite(list, choices) {
                assert(link_first(p, before, l));
            }
            lemma_corridor_order(p, list, j, k);
            let a = p.links@[l].from as int;
            let b = p.links@[l].to as int;
            assert(p.touches(l, a) && p.touches(l, b));
            if interior(p, c, a) {
                lemma_interior(p, list, k, a);
            }
            if interior(p, c, b) {
                lemma_interior(p, list, k, b);
            }
        } else {
            assert(link_set(p, after, l));
            if favourite(list, choices) {
                assert(choices[k] == Some(c.domain@[0]));
                assert(link_first(p, after, l));
            }
        }
    }
    if favourite(list, choices) {
        assert forall|j: int, l: int|
            0 <= j < k + 1 && (#[trigger] list[j]).first <= l < list[j].last implies #[trigger] link_first(
            p,
            after,
            l,
        ) by {
            assert(link_set(p, after, l));
        }
    }
    if interior(p, c, root) {
        lemma_interior(p, list, k, root);
    }
}

/// Sets the origins of the pieces between the links of corridors. Whether all corridors were
/// reached.
fn rebuild_corridors(
    p: &PlacementProblem,
    list: &Vec<Corridor>,
    choices: &Vec<Option<(i128, i128)>>,
    root: usize,
    origins: &mut Vec<Option<(i128, i128)>>,
) -> (whole: bool)
    requires
        p.wf(),
        corridors_wf(p, list@),
        choices_wf(list@, choices@),
        complete(choices@),
        root < p.nodes,
        is_end(p, list@, root as int) || list@.len() == 0,
        is_reach(p, list@, choices@, root as int, old(origins)@),
    ensures
        whole ==> is_rebuilt(p, list@, choices@, root as int, old(origins)@, final(origins)@, list@.len() as int),
        !whole ==> !covers(p, list@, old(origins)@) && !p.connected(),
{
    let ghost ends = origins@;
    let mut k: usize = 0;
    proof {
        reveal(is_rebuilt);
        assert forall|v: int| 0 <= v < p.nodes implies apart(#[trigger] ends[v]) by {
            assert(near(ends[v]));
        }
    }
    while k < list.len()
        invariant
            p.wf(),
            corridors_wf(p, list@),
            choices_wf(list@, choices@),
            complete(choices@),
            root < p.nodes,
            is_end(p, list@, root as int) || list@.len() == 0,
            ends == old(origins)@,
            is_reach(p, list@, choices@, root as int, ends),
            k <= list@.len(),
            is_rebuilt(p, list@, choices@, root as int, ends, origins@, k as int),
        decreases list.len() - k,
    {
        let ghost held = origins@;
        let ghost c = list@[k as int];
        proof {
            reveal(is_rebuilt);
            assert(corridor_wf(p, c));
            assert(p.link_wf(p.links@[c.first as int]));
            assert(p.link_wf(p.links@[c.last - 1]));
            assert(start_of(p, list@[k as int]) == start_of(p, c));
            assert(is_end(p, list@, start_of(p, c)));
            assert(is_end(p, list@, end_of(p, c)));
            assert(choices@[k as int] is Some);
        }
        let start: usize = p.links[list[k].first].from;
        if origins[start].is_none() {
            proof {
                assert(ends[start_of(p, list@[k as int])] is None);
                assert(!covers(p, list@, ends));
                lemma_unreached(p, list@, choices@, root as int, ends, start as int);
            }
            return false;
        }
        let choice: (i128, i128) = match choices[k] {
            Some(choice) => choice,
            None => (0, 0),
        };
        proof {
            assert(reached(ends, start_of(p, list@[k as int])));
            assert(settled(p, list@, choices@, ends, k as int));
            assert(near(ends[start_of(p, c)]) && near(ends[end_of(p, c)]));
        }
        reconstruct_corridor(p, list, k, choice, origins);
        proof {
            if favourite(list@, choices@) {
                assert(choices@[k as int] == Some(c.domain@[0]));
            }
            lemma_rebuilt_more(p, list@, choices@, root as int, ends, held, origins@, k as int);
        }
        k += 1;
    }
    true
}

/// The origins of all pieces, if all have one.
fn collect_origins(origins: &Vec<Option<(i128, i128)>>) -> (solved: Option<Vec<(i128, i128)>>)
    ensures
        match solved {
            Some(solved) => solved@.len() == origins@.len() && forall|u: int|
                0 <= u < solved@.len() ==> origins@[u] == Some(#[trigger] solved@[u]),
            None => exists|u: int| 0 <= u < origins@.len() && (#[trigger] origins@[u]) is None,
        },
{
    let mut solved: Vec<(i128, i128)> = Vec::new();
    let mut v: usize = 0;
    while v < origins.len()
        invariant
            v <= origins@.len(),
            solved@.len() == v,
            forall|u: int| 0 <= u < v ==> origins@[u] == Some(#[trigger] solved@[u]),
        decreases origins.len() - v,
    {
        match origins[v] {
            Some(origin) => {
                solved.push(origin);
            },
            None => {
                assert(origins@[v as int] is None);
                return None;
            },
        }
        v += 1;
    }
    Some(solved)
}

/// Where a piece has no origin though all links are set, the pieces do not hang together.
proof fn lemma_piece_left(
    p: &PlacementProblem,
    root: int,
    origins: Seq<Option<(i128, i128)>>,
    v: int,
)
    requires
        p.wf(),
        0 <= root < p.nodes,
        origins.len() == p.nodes,
        origins[root] is Some,
        forall|l: int| 0 <= l < p.links@.len() ==> link_set(p, origins, l) && #[trigger] p.link_wf(p.links@[l]),
        0 <= v < p.nodes,
        origins[v] is None,
    ensures
        !p.connected(),
{
    let set = Set::new(|u: int| 0 <= u < p.nodes && origins[u] is Some);
    assert(p.closed(set)) by {
        assert forall|l: int| 0 <= l < p.links@.len() implies (set.contains((#[trigger] p.links@[l]).from as int)
            <==> set.contains(p.links@[l].to as int)) by {
            assert(p.link_wf(p.links@[l]));
        }
    }
    assert(set.contains(root));
    if p.connected() {
        assert(p.all_in(set));
        assert(set.contains(v));
    }
}

/// Where all pieces have origins, these are those of a placement.
proof fn lemma_whole(
    p: &PlacementProblem,
    list: Seq<Corridor>,
    choices: Seq<Option<(i128, i128)>>,
    root: usize,
    ends: Seq<Option<(i128, i128)>>,
    origins: Seq<Option<(i128, i128)>>,
    solved: Seq<(i128, i128)>,
)
    requires
        p.wf(),
        corridors_wf(p, list),
        choices_wf(list, choices),
        complete(choices),
        root < p.nodes,
        root == first_root(p, list),
        is_reach(p, list, choices, root as int, ends),
        flood(p, list, choices, root) matches Ok(flooded) && flooded.origins == ends,
        is_rebuilt(p, list, choices, root as int, ends, origins, list.len() as int),
        solved.len() == origins.len(),
        forall|u: int| 0 <= u < solved.len() ==> origins[u] == Some(#[trigger] solved[u]),
    ensures
        contradiction(p, list, choices) is None,
        fits(p, list, choices, vectors(solved)),
        is_rooted(p, list, solved),
        p.coherent(vectors(solved)),
        exists|v: int| 0 <= v < p.nodes && #[trigger] vectors(solved)[v] == (0int, 0int),
        favourite(list, choices) ==> p.preferred(vectors(solved)),
        forall|v: int| 0 <= v < p.nodes ==> apart(Some(#[trigger] solved[v])),
{
    reveal(is_rebuilt);
    lemma_links_set(p, list, choices, origins);
    lemma_solved(p, list, choices, root, ends, origins, solved);
}

/// Where a piece has no origin, the pieces do not hang together.
proof fn lemma_gap_left(
    p: &PlacementProblem,
    list: Seq<Corridor>,
    choices: Seq<Option<(i128, i128)>>,
    root: usize,
    ends: Seq<Option<(i128, i128)>>,
    origins: Seq<Option<(i128, i128)>>,
)
    requires
        p.wf(),
        corridors_wf(p, list),
        root < p.nodes,
        root == first_root(p, list),
        flood(p, list, choices, root) matches Ok(flooded) && flooded.origins == ends,
        is_rebuilt(p, list, choices, root as int, ends, origins, list.len() as int),
        exists|u: int| 0 <= u < origins.len() && (#[trigger] origins[u]) is None,
    ensures
        contradiction(p, list, choices) == Some(Seq::<i128>::empty()),
        !p.connected(),
{
    reveal(is_rebuilt);
    lemma_links_set(p, list, choices, origins);
    let v = choose|v: int| 0 <= v < origins.len() && (#[trigger] origins[v]) is None;
    lemma_piece_left(p, root as int, origins, v);
    assert(!is_covered(p, list, ends, v, list.len() as int));
}

/// The origins of all pieces, where the chosen vectors of all corridors agree.
pub(crate) fn try_solve_origins_with_choices(
    p: &PlacementProblem,
    list: &Vec<Corridor>,
    choices: &Vec<Option<(i128, i128)>>,
) -> (result: Result<Vec<(i128, i128)>, Conflict>)
    requires
        p.wf(),
        corridors_wf(p, list@),
        choices_wf(list@, choices@),
        complete(choices@),
    ensures
        match result {
            Ok(origins) => {
                &&& contradiction(p, list@, choices@) is None
                &&& fits(p, list@, choices@, vectors(origins@))
                &&& is_rooted(p, list@, origins@)
                &&& p.coherent(vectors(origins@))
                &&& exists|v: int| 0 <= v < p.nodes && #[trigger] vectors(origins@)[v] == (0int, 0int)
                &&& favourite(list@, choices@) ==> p.preferred(vectors(origins@))
                &&& forall|v: int| 0 <= v < p.nodes ==> apart(Some(#[trigger] origins@[v]))
            },
            Err(conflict) => {
                &&& contradiction(p, list@, choices@) == Some(conflict.numbers@)
                &&& conflict.numbers@.len() == list@.len() || conflict.numbers@.len() == 0
                &&& small(conflict.numbers@)
                &&& p.connected() ==> forall|t: Seq<Vector>| !#[trigger] fits(p, list@, choices@, t)
            },
        },
{
    let root: usize = first_end(p, list);
    let mut origins: Vec<Option<(i128, i128)>> = match propagate_origins(p, list, choices, root) {
        Ok(origins) => origins,
        Err(conflict) => {
            return Err(conflict);
        },
    };
    let ghost ends = origins@;
    if !rebuild_corridors(p, list, choices, root, &mut origins) {
        let none: Vec<i128> = Vec::new();
        assert(none@ =~= Seq::<i128>::empty());
        return Err(Conflict { numbers: none });
    }
    let ghost whole = origins@;
    match collect_origins(&origins) {
        Some(solved) => {
            proof {
                lemma_whole(p, list@, choices@, root, ends, whole, solved@);
            }
            assert(contradiction(p, list@, choices@) is None);
            assert(fits(p, list@, choices@, vectors(solved@)));
            assert(is_rooted(p, list@, solved@));
            assert(p.coherent(vectors(solved@)));
            assert(exists|v: int| 0 <= v < p.nodes && #[trigger] vectors(solved@)[v] == (0int, 0int));
            assert(favourite(list@, choices@) ==> p.preferred(vectors(solved@)));
            assert(forall|v: int| 0 <= v < p.nodes ==> apart(Some(#[trigger] solved@[v])));
            Ok(solved)
        },
        None => {
            proof {
                lemma_gap_left(p, list@, choices@, root, ends, whole);
            }
            let none: Vec<i128> = Vec::new();
            assert(none@ =~= Seq::<i128>::empty());
            Err(Conflict { numbers: none })
        },
    }
}

/// The vectors of corridors, each multiplied by its number, added up.
pub open spec fn term_sum(
    p: &PlacementProblem,
    list: Seq<Corridor>,
    origins: Seq<Vector>,
    terms: Seq<(usize, i128)>,
    k: nat,
) -> Vector
    decreases k,
{
    if k == 0 {
        (0int, 0int)
    } else {
        let earlier = term_sum(p, list, origins, terms, (k - 1) as nat);
        let step = gap(p, list, origins, terms[k - 1].0 as int);
        (earlier.0 + terms[k - 1].1 * step.0, earlier.1 + terms[k - 1].1 * step.1)
    }
}

/// The terms add up to zero, whatever the origins.
pub open spec fn closes(p: &PlacementProblem, list: Seq<Corridor>, terms: Seq<(usize, i128)>) -> bool {
    &&& terms_differ(list, terms)
    &&& forall|origins: Seq<Vector>| #[trigger] term_sum(p, list, origins, terms, terms.len()) == (0int, 0int)
}

/// The terms speak of different corridors.
pub open spec fn terms_differ(list: Seq<Corridor>, terms: Seq<(usize, i128)>) -> bool {
    &&& forall|i: int| 0 <= i < terms.len() ==> (#[trigger] terms[i]).0 < list.len()
    &&& forall|i: int, j: int| #![trigger terms[i], terms[j]] 0 <= i < j < terms.len() ==> terms[i].0 != terms[j].0
}

/// None of the numbers of the terms is large.
pub open spec fn small_terms(terms: Seq<(usize, i128)>) -> bool {
    forall|i: int| 0 <= i < terms.len() ==> -3 <= (#[trigger] terms[i]).1 <= 3
}

/// The corridor is one of the first `k` of the order.
spec fn came(order: Seq<usize>, c: usize, k: int) -> bool {
    exists|i: int| 0 <= i < k && #[trigger] order[i] == c
}

/// The list holds each of the first `n` numbers once.
pub open spec fn is_order(order: Seq<usize>, n: nat) -> bool {
    &&& order.len() == n
    &&& forall|i: int| 0 <= i < n ==> (#[trigger] order[i]) < n
    &&& forall|c: int| 0 <= c < n ==> #[trigger] ordered(order, c)
    &&& forall|i: int, j: int| #![trigger order[i], order[j]] 0 <= i < j < n ==> order[i] != order[j]
}

/// The list holds the number.
pub open spec fn ordered(order: Seq<usize>, c: int) -> bool {
    exists|i: int| 0 <= i < order.len() && #[trigger] order[i] == c
}

proof fn lemma_term_prefix(
    p: &PlacementProblem,
    list: Seq<Corridor>,
    origins: Seq<Vector>,
    a: Seq<(usize, i128)>,
    b: Seq<(usize, i128)>,
    k: nat,
)
    requires
        k <= a.len(),
        k <= b.len(),
        forall|j: int| 0 <= j < k ==> a[j] == b[j],
    ensures
        term_sum(p, list, origins, a, k) == term_sum(p, list, origins, b, k),
    decreases k,
{
    if k > 0 {
        lemma_term_prefix(p, list, origins, a, b, (k - 1) as nat);
        assert(a[k - 1] == b[k - 1]);
    }
}

/// The first `k` corridors of the order whose number is not zero, with their numbers.
pub open spec fn nonzero_terms(order: Seq<usize>, numbers: Seq<i128>, k: nat) -> Seq<(usize, i128)>
    decreases k,
{
    if k == 0 {
        Seq::empty()
    } else {
        let earlier = nonzero_terms(order, numbers, (k - 1) as nat);
        let c = order[k - 1];
        if numbers[c as int] != 0 {
            earlier.push((c, numbers[c as int]))
        } else {
            earlier
        }
    }
}

/// The corridors whose number is not zero, in the given order, with their numbers.
pub(crate) fn terms_of(p: &PlacementProblem, list: &Vec<Corridor>, order: &Vec<usize>, numbers: &Vec<i128>) -> (terms: Vec<
    (usize, i128),
>)
    requires
        is_order(order@, list@.len()),
        numbers@.len() == list@.len(),
    ensures
        terms_differ(list@, terms@),
        forall|origins: Seq<Vector>| #[trigger]
            term_sum(p, list@, origins, terms@, terms@.len()) == weighted(
                p,
                list@,
                origins,
                numbers@,
                list@.len(),
            ),
        terms@.len() <= list@.len(),
        small(numbers@) ==> small_terms(terms@),
        terms@ == nonzero_terms(order@, numbers@, order@.len()),
{
    let mut terms: Vec<(usize, i128)> = Vec::new();
    let ghost mut done: Seq<i128> = Seq::new(list@.len(), |i: int| 0i128);
    proof {
        assert forall|origins: Seq<Vector>| #[trigger] term_sum(p, list@, origins, terms@, terms@.len()) == weighted(
            p,
            list@,
            origins,
            done,
            list@.len(),
        ) by {
            lemma_weighted_zero(p, list@, origins, done, list@.len());
        }
    }
    let mut k: usize = 0;
    while k < order.len()
        invariant
            k <= order@.len(),
            is_order(order@, list@.len()),
            numbers@.len() == list@.len(),
            done.len() == list@.len(),
            terms_differ(list@, terms@),
            terms@.len() <= k,
            small(numbers@) ==> small_terms(terms@),
            terms@ == nonzero_terms(order@, numbers@, k as nat),
            forall|i: int| 0 <= i < terms@.len() ==> came(order@, (#[trigger] terms@[i]).0, k as int),
            forall|i: int| 0 <= i < k ==> done[#[trigger] order@[i] as int] == numbers@[order@[i] as int],
            forall|i: int| k <= i < order@.len() ==> done[#[trigger] order@[i] as int] == 0,
            forall|origins: Seq<Vector>| #[trigger]
                term_sum(p, list@, origins, terms@, terms@.len()) == weighted(p, list@, origins, done, list@.len()),
        decreases order.len() - k,
    {
        let c: usize = order[k];
        assert(order@[k as int] < list@.len());
        let number: i128 = numbers[c];
        let ghost before = terms@;
        let ghost held = done;
        proof {
            done = done.update(c as int, number);
            assert(held[order@[k as int] as int] == 0);
            assert forall|i: int| k + 1 <= i < order@.len() implies done[#[trigger] order@[i] as int] == 0 by {
                assert(order@[k as int] != order@[i]);
            }
        }
        if number != 0 {
            terms.push((c, number));
        }
        proof {
            assert forall|i: int| 0 <= i < before.len() implies came(order@, (#[trigger] before[i]).0, k + 1)
                && before[i].0 != c by {
                assert(came(order@, before[i].0, k as int));
                let j = choose|j: int| 0 <= j < k && #[trigger] order@[j] == before[i].0;
                assert(order@[j] != order@[k as int]);
            }
            assert(order@[k as int] == c);
            assert(came(order@, c, k + 1));
            assert forall|i: int| 0 <= i < terms@.len() implies came(order@, (#[trigger] terms@[i]).0, k + 1) by {
                if i < before.len() {
                    assert(terms@[i] == before[i]);
                }
            }
            assert forall|i: int, j: int| #![trigger terms@[i], terms@[j]]
                0 <= i < j < terms@.len() implies terms@[i].0 != terms@[j].0 by {
                assert(terms@[i] == before[i]);
                if j < before.len() {
                    assert(terms@[j] == before[j]);
                }
            }
            assert forall|origins: Seq<Vector>| #[trigger] term_sum(p, list@, origins, terms@, terms@.len())
                == weighted(p, list@, origins, done, list@.len()) by {
                lemma_weighted_update(p, list@, origins, held, c as int, number, list@.len());
                assert(term_sum(p, list@, origins, before, before.len()) == weighted(
                    p,
                    list@,
                    origins,
                    held,
                    list@.len(),
                ));
                let step = gap(p, list@, origins, c as int);
                if number != 0 {
                    lemma_term_prefix(p, list@, origins, terms@, before, before.len());
                } else {
                    assert(0 * step.0 == 0 && 0 * step.1 == 0) by (nonlinear_arith);
                }
            }
        }
        k += 1;
    }
    proof {
        assert forall|c: int| 0 <= c < list@.len() implies done[c] == numbers@[c] by {
            assert(ordered(order@, c));
            let i = choose|i: int| 0 <= i < order@.len() && #[trigger] order@[i] == c;
            assert(done[order@[i] as int] == numbers@[order@[i] as int]);
        }
        assert(done =~= numbers@);
    }
    terms
}

/// The pieces that a forest reaches, and the corridors that it uses.
pub struct ForestModel {
    pub steps: Seq<Option<Step>>,
    pub depth: Seq<usize>,
    pub queue: Seq<usize>,
    pub seen: Seq<bool>,
    pub used: Seq<bool>,
}

/// A forest that reaches no pieces.
pub open spec fn forest_start(p: &PlacementProblem, n: nat) -> ForestModel {
    ForestModel {
        steps: Seq::new(p.nodes as nat, |v: int| None),
        depth: Seq::new(p.nodes as nat, |v: int| 0usize),
        queue: Seq::empty(),
        seen: Seq::new(p.nodes as nat, |v: int| false),
        used: Seq::new(n, |k: int| false),
    }
}

/// One more piece, as the root of a tree or by a step.
pub open spec fn grown(forest: ForestModel, step: Option<Step>, v: usize) -> ForestModel {
    ForestModel {
        steps: forest.steps.update(v as int, step),
        depth: forest.depth.update(
            v as int,
            match step {
                Some(step) => (forest.depth[step.parent as int] + 1) as usize,
                None => 0,
            },
        ),
        queue: forest.queue.push(v),
        seen: forest.seen.update(v as int, true),
        used: match step {
            Some(step) => forest.used.update(step.corridor as int, true),
            None => forest.used,
        },
    }
}

/// The sides of a row from `j` on are followed to pieces that were not reached.
pub open spec fn grow_row(
    p: &PlacementProblem,
    list: Seq<Corridor>,
    forest: ForestModel,
    cell: usize,
    row: Seq<Side>,
    j: int,
) -> ForestModel
    decreases row.len() - j,
{
    if j >= row.len() {
        forest
    } else {
        let neighbor = across_side(p, list, row[j]);
        let step = Step { parent: cell, corridor: row[j].0, forward: row[j].1 };
        let next = if forest.seen[neighbor as int] {
            forest
        } else {
            grown(forest, Some(step), neighbor)
        };
        grow_row(p, list, next, cell, row, j + 1)
    }
}

/// The first vectors of all corridors.
pub open spec fn all_chosen(list: Seq<Corridor>) -> Seq<Option<(i128, i128)>> {
    Seq::new(list.len(), |k: int| Some(list[k].domain@[0]))
}

/// The pieces that were reached are followed, from the one at `head` on.
pub open spec fn grow_from(p: &PlacementProblem, list: Seq<Corridor>, forest: ForestModel, head: int) -> ForestModel
    decreases p.nodes - head,
{
    if head >= forest.queue.len() || head >= p.nodes {
        forest
    } else {
        let cell = forest.queue[head];
        let row = side_row(p, list, all_chosen(list), cell as int, list.len());
        grow_from(p, list, grow_row(p, list, forest, cell, row, 0), head + 1)
    }
}

/// Trees grow from the pieces from `root` on that were not reached, one after the other.
pub open spec fn forest_from(p: &PlacementProblem, list: Seq<Corridor>, forest: ForestModel, root: int) -> ForestModel
    decreases p.nodes - root,
{
    if root >= p.nodes {
        forest
    } else {
        let next = if forest.seen[root] {
            forest
        } else {
            grow_from(p, list, grown(forest, None, root as usize), forest.queue.len() as int)
        };
        forest_from(p, list, next, root + 1)
    }
}

/// The forest that reaches all pieces, breadth first from each piece in turn.
pub open spec fn forest_of(p: &PlacementProblem, list: Seq<Corridor>) -> ForestModel {
    forest_from(p, list, forest_start(p, list.len()), 0)
}

/// The terms of the cycle that a corridor closes with a forest; none if its ends are in
/// different trees.
pub open spec fn closed_cycle(
    p: &PlacementProblem,
    list: Seq<Corridor>,
    order: Seq<usize>,
    forest: ForestModel,
    k: int,
) -> Seq<(usize, i128)> {
    let start = start_of(p, list[k]);
    let back = Step { parent: start as usize, corridor: k as usize, forward: true };
    match cycle_of(list.len(), forest.steps, forest.depth, start, end_of(p, list[k]), back) {
        Some(numbers) => nonzero_terms(order, numbers, order.len()),
        None => Seq::empty(),
    }
}

/// The cycles that those of the first `n` corridors close that a forest does not use.
pub open spec fn cycle_list(
    p: &PlacementProblem,
    list: Seq<Corridor>,
    order: Seq<usize>,
    forest: ForestModel,
    n: nat,
) -> Seq<Seq<(usize, i128)>>
    decreases n,
{
    if n == 0 {
        Seq::empty()
    } else {
        let earlier = cycle_list(p, list, order, forest, (n - 1) as nat);
        let terms = closed_cycle(p, list, order, forest, n - 1);
        if !forest.used[n - 1] && terms.len() > 0 {
            earlier.push(terms)
        } else {
            earlier
        }
    }
}

/// The terms of cycles.
pub open spec fn cycle_views(cycles: Seq<Vec<(usize, i128)>>) -> Seq<Seq<(usize, i128)>> {
    Seq::new(cycles.len(), |i: int| cycles[i]@)
}

/// A forest of steps that reach pieces.
#[derive(Debug)]
struct Forest {
    tree: Tree,
    queue: Vec<usize>,
    seen: Vec<bool>,
    used: Vec<bool>,
}

impl Forest {
    spec fn model(&self) -> ForestModel {
        ForestModel {
            steps: self.tree.steps@,
            depth: self.tree.depth@,
            queue: self.queue@,
            seen: self.seen@,
            used: self.used@,
        }
    }

    spec fn wf(&self, p: &PlacementProblem, list: Seq<Corridor>) -> bool {
        &&& self.tree.wf(p, list)
        &&& self.seen@.len() == p.nodes
        &&& self.used@.len() == list.len()
        &&& distinct(self.queue@)
        &&& forall|i: int|
            0 <= i < self.queue@.len() ==> (#[trigger] self.queue@[i]) < p.nodes && self.seen@[self.queue@[i] as int]
                && self.tree.depth@[self.queue@[i] as int] <= i
        &&& forall|v: int|
            0 <= v < p.nodes ==> (#[trigger] self.tree.steps@[v] matches Some(step)
                ==> self.seen@[step.parent as int])
    }

    /// One more piece.
    fn enter(&mut self, p: &PlacementProblem, list: &Vec<Corridor>, step: Option<Step>, v: usize, head: usize)
        requires
            p.wf(),
            old(self).wf(p, list@),
            v < p.nodes,
            !old(self).seen@[v as int],
            step matches Some(step) ==> leads(p, list@, step, v as int) && head < old(self).queue@.len()
                && old(self).queue@[head as int] == step.parent,
        ensures
            final(self).wf(p, list@),
            final(self).model() == grown(old(self).model(), step, v),
    {
        let ghost before = *self;
        proof {
            let more = before.queue@.push(v);
            assert forall|i: int, j: int| #![trigger more[i], more[j]] 0 <= i < j < more.len() implies more[i]
                != more[j] by {
                assert(before.queue@[i] < p.nodes && before.seen@[before.queue@[i] as int]);
                if j < before.queue@.len() {
                    assert(before.queue@[i] != before.queue@[j]);
                }
            }
            assert forall|i: int| 0 <= i < more.len() implies (#[trigger] more[i]) < p.nodes by {
                if i < before.queue@.len() {
                    assert(before.queue@[i] < p.nodes);
                }
            }
            lemma_distinct_few(more, p.nodes as nat);
            if step is Some {
                assert(before.tree.depth@[before.queue@[head as int] as int] <= head);
            }
        }
        self.seen.set(v, true);
        match step {
            Some(step) => {
                let depth: usize = self.tree.depth[step.parent] + 1;
                self.tree.depth.set(v, depth);
                self.used.set(step.corridor, true);
            },
            None => {
                self.tree.depth.set(v, 0);
            },
        }
        self.tree.steps.set(v, step);
        self.queue.push(v);
        proof {
            let model = grown(before.model(), step, v);
            assert(self.tree.depth@ =~= model.depth);
            assert(self.used@ =~= model.used);
            assert forall|u: int| 0 <= u < p.nodes implies (#[trigger] self.tree.steps@[u] matches Some(s) ==> leads(
                p,
                list@,
                s,
                u,
            ) && self.tree.depth@[u] == self.tree.depth@[s.parent as int] + 1 && self.seen@[s.parent as int]) by {
                if u != v && before.tree.steps@[u] is Some {
                    let s = before.tree.steps@[u]->Some_0;
                    assert(leads(p, list@, s, u));
                    assert(before.seen@[s.parent as int]);
                }
                if u == v && step is Some {
                    assert(before.queue@[head as int] < p.nodes && before.seen@[before.queue@[head as int] as int]);
                }
            }
            assert forall|u: int| 0 <= u < p.nodes implies #[trigger] self.tree.depth@[u] < p.nodes by {
                assert(before.tree.depth@[u] < p.nodes);
            }
            assert forall|i: int| 0 <= i < self.queue@.len() implies (#[trigger] self.queue@[i]) < p.nodes
                && self.seen@[self.queue@[i] as int] && self.tree.depth@[self.queue@[i] as int] <= i by {
                if i < before.queue@.len() {
                    assert(self.queue@[i] == before.queue@[i]);
                    assert(before.queue@[i] < p.nodes && before.seen@[before.queue@[i] as int]);
                }
            }
        }
    }
}

/// A forest that reaches all pieces, piece by piece in their order.
fn spanning_forest(p: &PlacementProblem, list: &Vec<Corridor>) -> (forest: Forest)
    requires
        p.wf(),
        corridors_wf(p, list@),
    ensures
        forest.wf(p, list@),
        forest.model() == forest_of(p, list@),
{
    let mut choices: Vec<Option<(i128, i128)>> = Vec::new();
    let mut used: Vec<bool> = Vec::new();
    let mut k: usize = 0;
    while k < list.len()
        invariant
            corridors_wf(p, list@),
            k <= list@.len(),
            choices@.len() == k,
            used@.len() == k,
            forall|j: int| 0 <= j < k ==> #[trigger] choices@[j] == Some(list@[j].domain@[0]),
            forall|j: int| 0 <= j < k ==> !#[trigger] used@[j],
        decreases list.len() - k,
    {
        assert(corridor_wf(p, list@[k as int]));
        choices.push(Some(list[k].domain[0]));
        used.push(false);
        k += 1;
    }
    assert(choices@ =~= all_chosen(list@));
    let sides: Vec<Vec<Side>> = collect_sides(p, list, &choices);
    let mut steps: Vec<Option<Step>> = Vec::new();
    let mut depth: Vec<usize> = Vec::new();
    let mut seen: Vec<bool> = Vec::new();
    let mut i: usize = 0;
    while i < p.nodes
        invariant
            i <= p.nodes,
            steps@.len() == i,
            depth@.len() == i,
            seen@.len() == i,
            forall|v: int| 0 <= v < i ==> (#[trigger] steps@[v]) is None,
            forall|v: int| 0 <= v < i ==> #[trigger] depth@[v] == 0,
            forall|v: int| 0 <= v < i ==> !#[trigger] seen@[v],
        decreases p.nodes - i,
    {
        steps.push(None);
        depth.push(0);
        seen.push(false);
        i += 1;
    }
    let mut forest: Forest = Forest { tree: Tree { steps, depth }, queue: Vec::new(), seen, used };
    proof {
        let start = forest_start(p, list@.len());
        assert(forest.tree.steps@ =~= start.steps);
        assert(forest.tree.depth@ =~= start.depth);
        assert(forest.queue@ =~= start.queue);
        assert(forest.seen@ =~= start.seen);
        assert(forest.used@ =~= start.used);
    }
    let mut head: usize = 0;
    let mut root: usize = 0;
    while root < p.nodes
        invariant
            p.wf(),
            corridors_wf(p, list@),
            choices@ == all_chosen(list@),
            are_sides(p, list@, choices@, sides@, list@.len() as int),
            forall|v: int| 0 <= v < p.nodes ==> (#[trigger] sides@[v])@ == side_row(p, list@, choices@, v, list@.len()),
            forest_from(p, list@, forest.model(), root as int) == forest_of(p, list@),
            forest.wf(p, list@),
            root <= p.nodes,
            head == forest.queue@.len(),
        decreases p.nodes - root,
    {
        if !forest.seen[root] {
            let ghost whole = grow_from(p, list@, grown(forest.model(), None, root), head as int);
            forest.enter(p, list, None, root, 0);
            while head < forest.queue.len()
                invariant
                    p.wf(),
                            corridors_wf(p, list@),
                    choices@ == all_chosen(list@),
                    are_sides(p, list@, choices@, sides@, list@.len() as int),
                    forall|v: int|
                        0 <= v < p.nodes ==> (#[trigger] sides@[v])@ == side_row(p, list@, choices@, v, list@.len()),
                    grow_from(p, list@, forest.model(), head as int) == whole,
                    forest.wf(p, list@),
                    head <= forest.queue@.len(),
                decreases p.nodes - head,
            {
                proof {
                    assert forall|i: int| 0 <= i < forest.queue@.len() implies (#[trigger] forest.queue@[i])
                        < p.nodes by {}
                    lemma_distinct_few(forest.queue@, p.nodes as nat);
                    assert(forest.queue@[head as int] < p.nodes);
                }
                let cell: usize = forest.queue[head];
                let ghost row = sides@[cell as int]@;
                let ghost entry = grow_row(p, list@, forest.model(), cell, row, 0);
                assert(grow_from(p, list@, entry, head + 1) == whole);
                let mut j: usize = 0;
                while j < sides[cell].len()
                    invariant
                        p.wf(),
                                    corridors_wf(p, list@),
                        row == sides@[cell as int]@,
                        grow_row(p, list@, forest.model(), cell, row, j as int) == entry,
                        are_sides(p, list@, choices@, sides@, list@.len() as int),
                        forest.wf(p, list@),
                        head < forest.queue@.len(),
                        cell == forest.queue@[head as int],
                        cell < p.nodes,
                        j <= sides@[cell as int]@.len(),
                    decreases sides@[cell as int]@.len() - j,
                {
                    let (c, forward): Side = sides[cell][j];
                    proof {
                        assert(lies_at(p, list@, sides@[cell as int]@[j as int], cell as int));
                        assert(corridor_wf(p, list@[c as int]));
                        assert(p.link_wf(p.links@[list@[c as int].first as int]));
                        assert(p.link_wf(p.links@[list@[c as int].last - 1]));
                    }
                    let neighbor: usize = if forward {
                        p.links[list[c].last - 1].to
                    } else {
                        p.links[list[c].first].from
                    };
                    if !forest.seen[neighbor] {
                        let step: Step = Step { parent: cell, corridor: c, forward };
                        assert(leads(p, list@, step, neighbor as int));
                        forest.enter(p, list, Some(step), neighbor, head);
                    }
                    j += 1;
                }
                head += 1;
            }
        }
        root += 1;
    }
    forest
}

/// For each corridor outside a spanning forest, the terms of the cycle that it closes.
fn build_cycle_constraints(p: &PlacementProblem, list: &Vec<Corridor>, order: &Vec<usize>) -> (cycles: Vec<
    Vec<(usize, i128)>,
>)
    requires
        p.wf(),
        corridors_wf(p, list@),
        is_order(order@, list@.len()),
    ensures
        forall|i: int|
            0 <= i < cycles@.len() ==> closes(p, list@, (#[trigger] cycles@[i])@) && small_terms(cycles@[i]@),
        cycle_views(cycles@) == cycle_list(p, list@, order@, forest_of(p, list@), list@.len()),
{
    let forest: Forest = spanning_forest(p, list);
    let mut cycles: Vec<Vec<(usize, i128)>> = Vec::new();
    assert(cycle_views(cycles@) =~= cycle_list(p, list@, order@, forest.model(), 0));
    let mut k: usize = 0;
    while k < list.len()
        invariant
            p.wf(),
            corridors_wf(p, list@),
            is_order(order@, list@.len()),
            forest.wf(p, list@),
            k <= list@.len(),
            forest.model() == forest_of(p, list@),
            cycle_views(cycles@) == cycle_list(p, list@, order@, forest.model(), k as nat),
            forall|i: int|
                0 <= i < cycles@.len() ==> closes(p, list@, (#[trigger] cycles@[i])@) && small_terms(cycles@[i]@),
        decreases list.len() - k,
    {
        if !forest.used[k] {
            proof {
                assert(corridor_wf(p, list@[k as int]));
                assert(p.link_wf(p.links@[list@[k as int].first as int]));
                assert(p.link_wf(p.links@[list@[k as int].last - 1]));
            }
            let start: usize = p.links[list[k].first].from;
            let end: usize = p.links[list[k].last - 1].to;
            let back: Step = Step { parent: start, corridor: k, forward: true };
            match cycle_numbers(p, list, &forest.tree, start, end, back) {
                Some(numbers) => {
                    let terms: Vec<(usize, i128)> = terms_of(p, list, order, &numbers);
                    proof {
                        assert forall|origins: Seq<Vector>| #[trigger]
                            term_sum(p, list@, origins, terms@, terms@.len()) == (0int, 0int) by {
                            assert(weighted(p, list@, origins, numbers@, list@.len()) == (0int, 0int));
                        }
                    }
                    assert(terms@ == closed_cycle(p, list@, order@, forest.model(), k as int));
                    if terms.len() > 0 {
                        let ghost before = cycle_views(cycles@);
                        cycles.push(terms);
                        assert(cycle_views(cycles@) =~= before.push(terms@));
                    }
                },
                None => {},
            }
        }
        k += 1;
    }
    cycles
}

/// Four corridors around a square.
#[derive(Debug, Clone, Copy)]
pub struct PlaquetteConstraint {
    pub top: usize,
    pub bottom: usize,
    pub left: usize,
    pub right: usize,
}

/// Both ways around the square lead to the same place.
pub open spec fn squares(p: &PlacementProblem, list: Seq<Corridor>, square: PlaquetteConstraint) -> bool {
    &&& square.top < list.len()
    &&& square.bottom < list.len()
    &&& square.left < list.len()
    &&& square.right < list.len()
    &&& square.top != square.bottom
    &&& square.top != square.left
    &&& square.top != square.right
    &&& square.bottom != square.left
    &&& square.bottom != square.right
    &&& square.left != square.right
    &&& start_of(p, list[square.top as int]) == start_of(p, list[square.left as int])
    &&& end_of(p, list[square.top as int]) == start_of(p, list[square.right as int])
    &&& end_of(p, list[square.left as int]) == start_of(p, list[square.bottom as int])
    &&& end_of(p, list[square.right as int]) == end_of(p, list[square.bottom as int])
}

/// The corridor is a single link of the axis, and starts at the piece.
pub open spec fn is_single(p: &PlacementProblem, c: Corridor, across: bool, v: int) -> bool {
    c.last - c.first == 1 && (c.first < p.across) == across && start_of(p, c) == v
}

/// The last of the first `n` corridors that is a single link of the axis and starts at the
/// piece.
pub open spec fn single_at(p: &PlacementProblem, list: Seq<Corridor>, across: bool, v: int, n: nat) -> Option<usize>
    decreases n,
{
    if n == 0 {
        None
    } else if is_single(p, list[n - 1], across, v) {
        Some((n - 1) as usize)
    } else {
        single_at(p, list, across, v, (n - 1) as nat)
    }
}

/// The square of single links whose northwest corner is the piece.
pub open spec fn square_at(p: &PlacementProblem, list: Seq<Corridor>, v: int) -> Option<PlaquetteConstraint> {
    let n = list.len();
    match (single_at(p, list, true, v, n), single_at(p, list, false, v, n)) {
        (Some(top), Some(left)) => match (
            single_at(p, list, false, end_of(p, list[top as int]), n),
            single_at(p, list, true, end_of(p, list[left as int]), n),
        ) {
            (Some(right), Some(bottom)) => {
                let square = PlaquetteConstraint { top, bottom, left, right };
                if squares(p, list, square) {
                    Some(square)
                } else {
                    None
                }
            },
            _ => None,
        },
        _ => None,
    }
}

/// The squares whose northwest corners are among the first `n` pieces.
pub open spec fn square_list(p: &PlacementProblem, list: Seq<Corridor>, n: nat) -> Seq<PlaquetteConstraint>
    decreases n,
{
    if n == 0 {
        Seq::empty()
    } else {
        let earlier = square_list(p, list, (n - 1) as nat);
        match square_at(p, list, n - 1) {
            Some(square) => earlier.push(square),
            None => earlier,
        }
    }
}

/// The corridors of single links of an axis, at the pieces where they start.
fn single_corridors(p: &PlacementProblem, list: &Vec<Corridor>, across: bool) -> (starts: Vec<Option<usize>>)
    requires
        p.wf(),
        corridors_wf(p, list@),
    ensures
        starts@.len() == p.nodes,
        forall|v: int| 0 <= v < p.nodes ==> #[trigger] starts@[v] == single_at(p, list@, across, v, list@.len()),
        forall|v: int|
            0 <= v < p.nodes ==> (#[trigger] starts@[v] matches Some(k) ==> k < list@.len() && start_of(
                p,
                list@[k as int],
            ) == v),
{
    let mut starts: Vec<Option<usize>> = Vec::new();
    let mut i: usize = 0;
    while i < p.nodes
        invariant
            i <= p.nodes,
            starts@.len() == i,
            forall|v: int| 0 <= v < i ==> (#[trigger] starts@[v]) is None,
        decreases p.nodes - i,
    {
        starts.push(None);
        i += 1;
    }
    let mut k: usize = 0;
    while k < list.len()
        invariant
            p.wf(),
            corridors_wf(p, list@),
            k <= list@.len(),
            starts@.len() == p.nodes,
            forall|v: int| 0 <= v < p.nodes ==> #[trigger] starts@[v] == single_at(p, list@, across, v, k as nat),
            forall|v: int|
                0 <= v < p.nodes ==> (#[trigger] starts@[v] matches Some(k) ==> k < list@.len() && start_of(
                    p,
                    list@[k as int],
                ) == v),
        decreases list.len() - k,
    {
        proof {
            assert(corridor_wf(p, list@[k as int]));
            assert(p.link_wf(p.links@[list@[k as int].first as int]));
        }
        let first: usize = list[k].first;
        if list[k].last - first == 1 && (first < p.across) == across {
            starts.set(p.links[first].from, Some(k));
        }
        k += 1;
    }
    starts
}

/// The squares of corridors of single links.
fn build_plaquettes(p: &PlacementProblem, list: &Vec<Corridor>) -> (squares_found: Vec<PlaquetteConstraint>)
    requires
        p.wf(),
        corridors_wf(p, list@),
    ensures
        forall|i: int| 0 <= i < squares_found@.len() ==> squares(p, list@, #[trigger] squares_found@[i]),
        squares_found@ == square_list(p, list@, p.nodes as nat),
{
    let east: Vec<Option<usize>> = single_corridors(p, list, true);
    let south: Vec<Option<usize>> = single_corridors(p, list, false);
    let mut found: Vec<PlaquetteConstraint> = Vec::new();
    let mut v: usize = 0;
    while v < p.nodes
        invariant
            p.wf(),
            corridors_wf(p, list@),
            east@.len() == p.nodes,
            south@.len() == p.nodes,
            forall|u: int|
                0 <= u < p.nodes ==> (#[trigger] east@[u] matches Some(k) ==> k < list@.len() && start_of(
                    p,
                    list@[k as int],
                ) == u),
            forall|u: int|
                0 <= u < p.nodes ==> (#[trigger] south@[u] matches Some(k) ==> k < list@.len() && start_of(
                    p,
                    list@[k as int],
                ) == u),
            v <= p.nodes,
            forall|u: int| 0 <= u < p.nodes ==> #[trigger] east@[u] == single_at(p, list@, true, u, list@.len()),
            forall|u: int| 0 <= u < p.nodes ==> #[trigger] south@[u] == single_at(p, list@, false, u, list@.len()),
            found@ == square_list(p, list@, v as nat),
            forall|i: int| 0 <= i < found@.len() ==> squares(p, list@, #[trigger] found@[i]),
        decreases p.nodes - v,
    {
        match (east[v], south[v]) {
            (Some(top), Some(left)) => {
                proof {
                    assert(corridor_wf(p, list@[top as int]) && corridor_wf(p, list@[left as int]));
                    assert(p.link_wf(p.links@[list@[top as int].last - 1]));
                    assert(p.link_wf(p.links@[list@[left as int].last - 1]));
                }
                let northeast: usize = p.links[list[top].last - 1].to;
                let southwest: usize = p.links[list[left].last - 1].to;
                match (south[northeast], east[southwest]) {
                    (Some(right), Some(bottom)) => {
                        proof {
                            assert(corridor_wf(p, list@[right as int]) && corridor_wf(p, list@[bottom as int]));
                        }
                        let meet: bool = p.links[list[right].last - 1].to == p.links[list[bottom].last - 1].to;
                        let differ: bool = top != bottom && top != left && top != right && bottom != left && bottom
                            != right && left != right;
                        let square: PlaquetteConstraint = PlaquetteConstraint { top, bottom, left, right };
                        assert((meet && differ) == squares(p, list@, square));
                        if meet && differ {
                            found.push(square);
                        }
                    },
                    _ => {},
                }
            },
            _ => {},
        }
        v += 1;
    }
    found
}

/// By what corridors are ordered: the axis, the names of the pieces at their ends with that
/// of the connector between them, and where they lie.
#[derive(Debug)]
struct FamilyKey {
    across: bool,
    first_name: &'static str,
    middle_name: String,
    last_name: &'static str,
    lane: i32,
    phase: i32,
    start: i32,
    end: i32,
}

/// A key, over texts.
pub struct KeyModel {
    pub across: bool,
    pub first_name: Seq<char>,
    pub middle_name: Seq<char>,
    pub last_name: Seq<char>,
    pub numbers: Seq<int>,
}

impl View for FamilyKey {
    type V = KeyModel;

    closed spec fn view(&self) -> KeyModel {
        KeyModel {
            across: self.across,
            first_name: self.first_name@,
            middle_name: self.middle_name@,
            last_name: self.last_name@,
            numbers: seq![self.lane as int, self.phase as int, self.start as int, self.end as int],
        }
    }
}

/// The numbers come before others, in the order of the first that differ.
pub open spec fn numbers_before(a: Seq<int>, b: Seq<int>, k: int) -> bool
    decreases a.len() - k,
{
    if k >= a.len() {
        false
    } else {
        a[k] < b[k] || (a[k] == b[k] && numbers_before(a, b, k + 1))
    }
}

/// The key comes before another: those from west to east first, then by names, then by place.
pub open spec fn key_before(a: KeyModel, b: KeyModel) -> bool {
    if a.across != b.across {
        a.across
    } else if a.first_name != b.first_name {
        text::text_less(a.first_name, b.first_name)
    } else if a.middle_name != b.middle_name {
        text::text_less(a.middle_name, b.middle_name)
    } else if a.last_name != b.last_name {
        text::text_less(a.last_name, b.last_name)
    } else {
        numbers_before(a.numbers, b.numbers, 0)
    }
}

proof fn lemma_numbers_before(a: Seq<int>, b: Seq<int>, c: Seq<int>, k: int)
    requires
        a.len() == b.len() == c.len(),
    ensures
        numbers_before(a, b, k) && numbers_before(b, c, k) ==> numbers_before(a, c, k),
        !numbers_before(a, b, k) && !numbers_before(b, c, k) ==> !numbers_before(a, c, k),
        !(numbers_before(a, b, k) && numbers_before(b, a, k)),
    decreases a.len() - k,
{
    if k < a.len() {
        lemma_numbers_before(a, b, c, k + 1);
    }
}

/// What is not before another, which is not before a third, is not before the third.
proof fn lemma_key_order(a: KeyModel, b: KeyModel, c: KeyModel)
    requires
        a.numbers.len() == 4,
        b.numbers.len() == 4,
        c.numbers.len() == 4,
    ensures
        key_before(a, b) ==> !key_before(b, a),
        !key_before(a, b) && !key_before(b, c) ==> !key_before(a, c),
{
    lemma_text_order(a.first_name, b.first_name, c.first_name);
    lemma_text_order(a.middle_name, b.middle_name, c.middle_name);
    lemma_text_order(a.last_name, b.last_name, c.last_name);
    lemma_numbers_before(a.numbers, b.numbers, c.numbers, 0);
}

proof fn lemma_text_order(a: Seq<char>, b: Seq<char>, c: Seq<char>)
    ensures
        text::text_less(a, b) ==> !text::text_less(b, a),
        a != b && !text::text_less(a, b) ==> text::text_less(b, a),
        b != c && !text::text_less(b, c) ==> text::text_less(c, b),
        a != c && !text::text_less(a, c) ==> text::text_less(c, a),
        text::text_less(a, b) && text::text_less(b, c) ==> text::text_less(a, c),
        text::text_less(c, b) && text::text_less(b, a) ==> text::text_less(c, a),
        !text::text_less(a, a),
        text::text_less(a, c) ==> !text::text_less(c, a),
{
    if text::text_less(a, b) && text::text_less(b, a) {
        text::lemma_text_less_transitive(a, b, a);
    }
    if text::text_less(a, c) && text::text_less(c, a) {
        text::lemma_text_less_transitive(a, c, a);
    }
    text::lemma_text_less_irreflexive(a);
    text::lemma_text_less_total(a, b);
    text::lemma_text_less_total(b, c);
    text::lemma_text_less_total(a, c);
    if text::text_less(a, b) && text::text_less(b, c) {
        text::lemma_text_less_transitive(a, b, c);
    }
    if text::text_less(c, b) && text::text_less(b, a) {
        text::lemma_text_less_transitive(c, b, a);
    }
}

/// A corridor comes before another: its key does, or the keys are as good as each other and it
/// is listed before.
pub open spec fn corridor_before(p: &PlacementProblem, list: Seq<Corridor>, a: usize, b: usize) -> bool {
    let first = key_of(p, list[a as int]);
    let second = key_of(p, list[b as int]);
    key_before(first, second) || (!key_before(second, first) && a < b)
}

/// The corridors stand in the order of their keys.
pub open spec fn in_key_order(p: &PlacementProblem, list: Seq<Corridor>, order: Seq<usize>) -> bool {
    forall|i: int, j: int| #![trigger order[i], order[j]]
        0 <= i < j < order.len() ==> corridor_before(p, list, order[i], order[j])
}

impl FamilyKey {
    fn before(&self, other: &FamilyKey) -> (result: bool)
        ensures
            result == key_before(self@, other@),
    {
        if self.across != other.across {
            return self.across;
        }
        if !same_text(self.first_name, other.first_name) {
            return text_before(self.first_name, other.first_name);
        }
        if !same_text(self.middle_name.as_str(), other.middle_name.as_str()) {
            return text_before(self.middle_name.as_str(), other.middle_name.as_str());
        }
        if !same_text(self.last_name, other.last_name) {
            return text_before(self.last_name, other.last_name);
        }
        proof {
            reveal_with_fuel(numbers_before, 6);
        }
        if self.lane != other.lane {
            return self.lane < other.lane;
        }
        if self.phase != other.phase {
            return self.phase < other.phase;
        }
        if self.start != other.start {
            return self.start < other.start;
        }
        self.end < other.end
    }
}

/// The text between the names of the pieces at the ends of a corridor.
pub open spec fn middle_text(p: &PlacementProblem, c: Corridor) -> Seq<char> {
    if c.first >= p.across {
        Seq::empty()
    } else if c.last - c.first == 1 {
        p.connectors@[c.first as int]@
    } else {
        "corridor("@ + text::decimal((c.last - c.first) as nat) + ")"@
    }
}

/// The key of a corridor.
pub open spec fn key_of(p: &PlacementProblem, c: Corridor) -> KeyModel {
    let a = start_of(p, c);
    let b = end_of(p, c);
    let across = c.first < p.across;
    KeyModel {
        across,
        first_name: p.names@[a]@,
        middle_name: middle_text(p, c),
        last_name: p.names@[b]@,
        numbers: if across {
            seq![
                p.places@[a].1 as int,
                p.places@[a].0 as int % 3,
                p.places@[a].0 as int,
                p.places@[b].0 as int,
            ]
        } else {
            seq![
                p.places@[a].0 as int,
                p.places@[a].1 as int % 3,
                p.places@[a].1 as int,
                p.places@[b].1 as int,
            ]
        },
    }
}

/// The remainder of a division by three, zero or more.
fn phase_of(n: i32) -> (phase: i32)
    ensures
        phase == n as int % 3,
{
    if n >= 0 {
        n % 3
    } else {
        let m: i32 = (-(n + 1)) % 3;
        2 - m
    }
}

fn family_key(p: &PlacementProblem, c: &Corridor) -> (key: FamilyKey)
    requires
        p.wf(),
        corridor_wf(p, *c),
    ensures
        key@ == key_of(p, *c),
{
    proof {
        assert(p.link_wf(p.links@[c.first as int]));
        assert(p.link_wf(p.links@[c.last - 1]));
    }
    let across: bool = c.first < p.across;
    let a: usize = p.links[c.first].from;
    let b: usize = p.links[c.last - 1].to;
    let mut middle_name: String = String::new();
    if across {
        if c.last - c.first == 1 {
            middle_name.append(p.connectors[c.first]);
        } else {
            middle_name.append("corridor(");
            push_usize(&mut middle_name, c.last - c.first);
            middle_name.append(")");
        }
    }
    assert(middle_name@ =~= middle_text(p, *c));
    let (lane, start, end): (i32, i32, i32) = if across {
        (p.places[a].1, p.places[a].0, p.places[b].0)
    } else {
        (p.places[a].0, p.places[a].1, p.places[b].1)
    };
    let key: FamilyKey = FamilyKey {
        across,
        first_name: p.names[a],
        middle_name,
        last_name: p.names[b],
        lane,
        phase: phase_of(start),
        start,
        end,
    };
    assert(key@.numbers =~= key_of(p, *c).numbers);
    key
}

/// A corridor in its place.
proof fn lemma_key_inserted(p: &PlacementProblem, list: Seq<Corridor>, before: Seq<usize>, at: int, c: usize)
    requires
        in_key_order(p, list, before),
        0 <= at <= before.len(),
        forall|i: int| 0 <= i < before.len() ==> (#[trigger] before[i]) < c,
        forall|i: int|
            at <= i < before.len() ==> key_before(key_of(p, list[c as int]), key_of(p, list[#[trigger] before[i] as int])),
        at > 0 ==> !key_before(key_of(p, list[c as int]), key_of(p, list[before[at - 1] as int])),
    ensures
        in_key_order(p, list, before.insert(at, c)),
{
    let after = before.insert(at, c);
    let own = key_of(p, list[c as int]);
    assert forall|i: int, j: int| #![trigger after[i], after[j]] 0 <= i < j < after.len() implies corridor_before(
        p,
        list,
        after[i],
        after[j],
    ) by {
        if j < at {
            assert(after[i] == before[i] && after[j] == before[j]);
        } else if j == at {
            assert(after[i] == before[i]);
            let last = key_of(p, list[before[at - 1] as int]);
            let other = key_of(p, list[before[i] as int]);
            if i < at - 1 {
                assert(corridor_before(p, list, before[i], before[at - 1]));
                lemma_key_order(other, last, other);
                lemma_key_order(own, last, other);
            }
        } else if i < at {
            assert(after[i] == before[i] && after[j] == before[j - 1]);
        } else if i == at {
            assert(after[j] == before[j - 1]);
            lemma_key_order(own, key_of(p, list[before[j - 1] as int]), own);
        } else {
            assert(after[i] == before[i - 1] && after[j] == before[j - 1]);
        }
    }
}

/// The corridors in the order of their keys.
fn order_families(p: &PlacementProblem, list: &Vec<Corridor>) -> (order: Vec<usize>)
    requires
        p.wf(),
        corridors_wf(p, list@),
    ensures
        is_order(order@, list@.len()),
        in_key_order(p, list@, order@),
{
    let mut keys: Vec<FamilyKey> = Vec::new();
    let mut k: usize = 0;
    while k < list.len()
        invariant
            p.wf(),
            corridors_wf(p, list@),
            k <= list@.len(),
            keys@.len() == k,
            forall|j: int| 0 <= j < k ==> (#[trigger] keys@[j])@ == key_of(p, list@[j]),
        decreases list.len() - k,
    {
        assert(corridor_wf(p, list@[k as int]));
        keys.push(family_key(p, &list[k]));
        k += 1;
    }
    let mut order: Vec<usize> = Vec::new();
    let mut c: usize = 0;
    while c < keys.len()
        invariant
            c <= keys@.len(),
            keys@.len() == list@.len(),
            forall|j: int| 0 <= j < keys@.len() ==> (#[trigger] keys@[j])@ == key_of(p, list@[j]),
            is_order(order@, c as nat),
            in_key_order(p, list@, order@),
        decreases keys.len() - c,
    {
        let mut at: usize = order.len();
        while at > 0 && keys[c].before(&keys[order[at - 1]])
            invariant
                at <= order@.len(),
                c < keys@.len(),
                keys@.len() == list@.len(),
                forall|j: int| 0 <= j < keys@.len() ==> (#[trigger] keys@[j])@ == key_of(p, list@[j]),
                is_order(order@, c as nat),
                in_key_order(p, list@, order@),
                forall|i: int|
                    at <= i < order@.len() ==> key_before(
                        key_of(p, list@[c as int]),
                        key_of(p, list@[#[trigger] order@[i] as int]),
                    ),
            decreases at,
        {
            at -= 1;
        }
        let ghost before = order@;
        assert(at > 0 ==> !key_before(
            key_of(p, list@[c as int]),
            key_of(p, list@[before[at - 1] as int]),
        ));
        order.insert(at, c);
        proof {
            lemma_key_inserted(p, list@, before, at as int, c);
            let after = order@;
            assert(after == before.insert(at as int, c));
            assert forall|d: int| 0 <= d < c + 1 implies #[trigger] ordered(after, d) by {
                if d < c {
                    assert(ordered(before, d));
                    let i = choose|i: int| 0 <= i < before.len() && #[trigger] before[i] == d;
                    if i < at {
                        assert(after[i] == d);
                    } else {
                        assert(after[i + 1] == d);
                    }
                } else {
                    assert(after[at as int] == d);
                }
            }
            assert forall|i: int| 0 <= i < c + 1 implies (#[trigger] after[i]) < c + 1 by {
                if i < at {
                    assert(before[i] < c);
                } else if i > at {
                    assert(before[i - 1] < c);
                }
            }
            assert forall|i: int, j: int| #![trigger after[i], after[j]] 0 <= i < j < c + 1 implies after[i] != after[j] by {
                let a = if i < at { i } else { i - 1 };
                let b = if j < at { j } else { j - 1 };
                if i != at {
                    assert(before[a] < c);
                }
                if j != at {
                    assert(before[b] < c);
                }
                if i != at && j != at {
                    assert(before[a] != before[b]);
                }
            }
        }
        c += 1;
    }
    order
}

/// The corridors, the order in which they are tried, and what their vectors have to meet.
#[derive(Debug)]
pub struct PlacementModel {
    pub corridors: Vec<Corridor>,
    pub order: Vec<usize>,
    pub plaquettes: Vec<PlaquetteConstraint>,
    pub cycles: Vec<Vec<(usize, i128)>>,
}

impl PlacementModel {
    /// The corridors take up all links, and whatever the origins, both ways around a square
    /// lead to the same place, and the terms of a cycle add up to zero.
    pub open spec fn wf(&self, p: &PlacementProblem) -> bool {
        &&& corridors_wf(p, self.corridors@)
        &&& is_order(self.order@, self.corridors@.len())
        &&& forall|i: int|
            0 <= i < self.plaquettes@.len() ==> squares(p, self.corridors@, #[trigger] self.plaquettes@[i])
        &&& forall|i: int|
            0 <= i < self.cycles@.len() ==> closes(p, self.corridors@, (#[trigger] self.cycles@[i])@) && small_terms(
                self.cycles@[i]@,
            )
    }
}

/// The model of a problem: the longest corridors, in the order of their keys; all squares of
/// single links; and the cycle of every corridor that a spanning forest does not use.
pub open spec fn is_model(p: &PlacementProblem, model: &PlacementModel) -> bool {
    &&& model.wf(p)
    &&& are_longest(p, model.corridors@)
    &&& in_key_order(p, model.corridors@, model.order@)
    &&& model.plaquettes@ == square_list(p, model.corridors@, p.nodes as nat)
    &&& cycle_views(model.cycles@) == cycle_list(
        p,
        model.corridors@,
        model.order@,
        forest_of(p, model.corridors@),
        model.corridors@.len(),
    )
}

/// The corridors, and what their vectors have to meet.
pub(crate) fn build_placement_model(p: &PlacementProblem) -> (model: PlacementModel)
    requires
        p.wf(),
    ensures
        is_model(p, &model),
{
    let corridors: Vec<Corridor> = build_corridors(p);
    let order: Vec<usize> = order_families(p, &corridors);
    let plaquettes: Vec<PlaquetteConstraint> = build_plaquettes(p, &corridors);
    let cycles: Vec<Vec<(usize, i128)>> = build_cycle_constraints(p, &corridors, &order);
    PlacementModel { corridors, order, plaquettes, cycles }
}

} // verus!
