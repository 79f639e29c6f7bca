//! Where two linked pieces can stand from each other.
//!
//! A piece prefers to stand where the ends of the wires meet. It may also stand at one of
//! the distances that are known to work, or a little nearer or farther.

use crate::board_error::{BoardError, BoardFailure};
use crate::candidates;
use crate::candidates::{
    known_horizontal_placement_candidates, known_vertical_placement_candidates, HorizontalPlacementCandidate,
    VerticalPlacementCandidate,
};
use crate::corridors;
use crate::corridors::{manhattan_delta_distance, Vector};
use crate::encoding::CellCoord;
use crate::library;
use crate::published;
use crate::published::{PatternFiles, WireAnchors};
use crate::routing;
use crate::routing::connector_joining;
use crate::stock;
use crate::stock::PublishedLibrary;
use vstd::prelude::*;

verus! {

/// A pair of coordinates as a vector.
pub open spec fn pair_vector(d: (i32, i32)) -> Vector {
    (d.0 as int, d.1 as int)
}

/// How far a candidate lies from another: the distance of the piece, and that of the
/// connector.
pub open spec fn remoteness(
    candidate: HorizontalPlacementCandidate,
    from: HorizontalPlacementCandidate,
) -> (int, int) {
    (
        corridors::distance(pair_vector(candidate.right_delta), pair_vector(from.right_delta)),
        corridors::distance(pair_vector(candidate.connector_delta), pair_vector(from.connector_delta)),
    )
}

/// A candidate lies farther than another: its piece does or, where the pieces lie alike,
/// its connector.
pub open spec fn farther(
    a: HorizontalPlacementCandidate,
    b: HorizontalPlacementCandidate,
    from: HorizontalPlacementCandidate,
) -> bool {
    let (far_a, far_b) = (remoteness(a, from), remoteness(b, from));
    far_a.0 > far_b.0 || (far_a.0 == far_b.0 && far_a.1 > far_b.1)
}

/// A candidate put in front of those at the end that lie farther.
pub open spec fn put(
    list: Seq<HorizontalPlacementCandidate>,
    candidate: HorizontalPlacementCandidate,
    from: HorizontalPlacementCandidate,
) -> Seq<HorizontalPlacementCandidate>
    decreases list.len(),
{
    if list.len() == 0 || !farther(list.last(), candidate, from) {
        list.push(candidate)
    } else {
        put(list.drop_last(), candidate, from).push(list.last())
    }
}

/// The first `k` candidates, the nearest first. Those that lie alike keep their order.
pub open spec fn nearest_first(
    list: Seq<HorizontalPlacementCandidate>,
    from: HorizontalPlacementCandidate,
    k: nat,
) -> Seq<HorizontalPlacementCandidate>
    decreases k,
{
    if k == 0 {
        Seq::empty()
    } else {
        put(nearest_first(list, from, (k - 1) as nat), list[k - 1], from)
    }
}

/// A candidate for the same place is among them.
pub open spec fn has_place(list: Seq<HorizontalPlacementCandidate>, place: (i32, i32)) -> bool {
    exists|i: int| 0 <= i < list.len() && (#[trigger] list[i]).right_delta == place
}

/// The candidates with one more, unless one for the same place is among them.
pub open spec fn with_new(
    list: Seq<HorizontalPlacementCandidate>,
    candidate: HorizontalPlacementCandidate,
) -> Seq<HorizontalPlacementCandidate> {
    if has_place(list, candidate.right_delta) {
        list
    } else {
        list.push(candidate)
    }
}

/// A candidate whose piece stands a little farther along an axis.
pub open spec fn slid(candidate: HorizontalPlacementCandidate, level: bool, steps: int) -> HorizontalPlacementCandidate {
    HorizontalPlacementCandidate {
        connector_delta: candidate.connector_delta,
        right_delta: if level {
            ((candidate.right_delta.0 + steps) as i32, candidate.right_delta.1)
        } else {
            (candidate.right_delta.0, (candidate.right_delta.1 + steps) as i32)
        },
    }
}

/// The steps by which a piece may be slid.
pub open spec fn slides() -> Seq<int> {
    seq![-6, -3, 0, 3, 6]
}

/// The known candidates, and the first `k` slid ones.
pub open spec fn completed(
    known: Seq<HorizontalPlacementCandidate>,
    default: HorizontalPlacementCandidate,
    level: bool,
    k: nat,
) -> Seq<HorizontalPlacementCandidate>
    decreases k,
{
    if k == 0 {
        known
    } else {
        with_new(completed(known, default, level, (k - 1) as nat), slid(default, level, slides()[k - 1]))
    }
}

/// All candidates for a piece beside or below another.
pub open spec fn all_candidates(
    known: Seq<HorizontalPlacementCandidate>,
    default: HorizontalPlacementCandidate,
    level: bool,
) -> Seq<HorizontalPlacementCandidate> {
    completed(known, default, level, 5)
}

/// The places of candidates.
pub open spec fn places_of(list: Seq<HorizontalPlacementCandidate>) -> Seq<(i128, i128)> {
    Seq::new(list.len(), |i: int| (list[i].right_delta.0 as i128, list[i].right_delta.1 as i128))
}

/// The places where a piece may stand, the preferred one first.
pub open spec fn allowed_places(
    list: Seq<HorizontalPlacementCandidate>,
    default: HorizontalPlacementCandidate,
) -> Seq<(i128, i128)> {
    places_of(nearest_first(list, default, list.len()))
}

/// How two pieces are linked.
pub struct LinkModel {
    pub connector: Seq<char>,
    pub default: HorizontalPlacementCandidate,
    pub candidates: Seq<HorizontalPlacementCandidate>,
}

/// A cell as a vector, its coordinates cut to 32 bits.
pub open spec fn cell_vector(cell: CellCoord) -> Vector {
    ((cell.x as i32) as int, (cell.y as i32) as int)
}

/// A vector as a pair of coordinates.
pub open spec fn pair_of(v: Vector) -> (i32, i32) {
    (v.0 as i32, v.1 as i32)
}

/// A vector is a pair of 32-bit coordinates.
pub open spec fn is_pair(v: Vector) -> bool {
    i32::MIN <= v.0 <= i32::MAX && i32::MIN <= v.1 <= i32::MAX
}

/// A vector is a pair of 32-bit coordinates, and so is each to which a piece may be slid from it.
pub open spec fn can_slide(v: Vector, level: bool) -> bool {
    &&& is_pair(v)
    &&& if level {
        i32::MIN + 6 <= v.0 <= i32::MAX - 6
    } else {
        i32::MIN + 6 <= v.1 <= i32::MAX - 6
    }
}

/// The sums that lead from the left piece through the connector to the right one are pairs of
/// 32-bit coordinates.
pub open spec fn adds_up_across(left: CellCoord, right: CellCoord, west: CellCoord, east: CellCoord) -> bool {
    let connector = corridors::minus(cell_vector(left), cell_vector(west));
    let beyond = corridors::plus(connector, cell_vector(east));
    is_pair(connector) && is_pair(beyond) && can_slide(corridors::minus(beyond, cell_vector(right)), true)
}

/// The sums that lead from the upper piece to the lower one are pairs of 32-bit coordinates.
pub open spec fn adds_up_down(top: CellCoord, bottom: CellCoord) -> bool {
    can_slide(corridors::minus(cell_vector(top), cell_vector(bottom)), false)
}

/// The connector stands where its west end meets the left piece, and the right piece where
/// the connector's east end meets it.
pub open spec fn meeting_across(
    left: CellCoord,
    right: CellCoord,
    west: CellCoord,
    east: CellCoord,
) -> HorizontalPlacementCandidate {
    let connector = corridors::minus(cell_vector(left), cell_vector(west));
    HorizontalPlacementCandidate {
        connector_delta: pair_of(connector),
        right_delta: pair_of(corridors::minus(corridors::plus(connector, cell_vector(east)), cell_vector(right))),
    }
}

/// The lower piece stands where the ends of the wires meet.
pub open spec fn meeting_down(top: CellCoord, bottom: CellCoord) -> HorizontalPlacementCandidate {
    HorizontalPlacementCandidate {
        connector_delta: (0, 0),
        right_delta: pair_of(corridors::minus(cell_vector(top), cell_vector(bottom))),
    }
}

/// A candidate for a piece below another, which has no connector.
pub open spec fn without_connector(candidate: VerticalPlacementCandidate) -> HorizontalPlacementCandidate {
    HorizontalPlacementCandidate { connector_delta: (0, 0), right_delta: candidate.bottom_delta }
}

/// The known candidates for a piece below another.
pub open spec fn known_below(top: Seq<char>, bottom: Seq<char>) -> Seq<HorizontalPlacementCandidate> {
    Seq::new(candidates::known_down(top, bottom).len(), |i: int| without_connector(candidates::known_down(top, bottom)[i]))
}

/// The connector between two pieces, by the phases of their wires.
pub open spec fn joining(left: Seq<Seq<u8>>, right: Seq<Seq<u8>>) -> Result<Seq<char>, BoardFailure> {
    match published::alignment_in(left).0 {
        None => Err(BoardFailure::Missing("east phase"@)),
        Some(west) => match published::alignment_in(right).2 {
            None => Err(BoardFailure::Missing("west phase"@)),
            Some(east) => match routing::connector_for(west, east) {
                None => Err(BoardFailure::MissingConnector(west as int, east as int)),
                Some(name) => Ok(name),
            },
        },
    }
}

/// The link of two pieces through a connector.
pub open spec fn link_through(
    left: (Seq<char>, CellCoord),
    right: (Seq<char>, CellCoord),
    connector: Seq<char>,
    ends: WireAnchors,
) -> Result<LinkModel, BoardFailure> {
    match ends.west {
        None => Err(BoardFailure::Missing("connector west anchor"@)),
        Some(west) => match ends.east {
            None => Err(BoardFailure::Missing("connector east anchor"@)),
            Some(east) => if !adds_up_across(left.1, right.1, west, east) {
                Err(BoardFailure::TooLarge)
            } else {
                let default = meeting_across(left.1, right.1, west, east);
                Ok(
                    LinkModel {
                        connector,
                        default,
                        candidates: all_candidates(
                            candidates::known_across(left.0, connector, right.0),
                            default,
                            true,
                        ),
                    },
                )
            },
        },
    }
}

/// How two pieces are linked from west to east.
pub open spec fn link_across(files: &PatternFiles, left: Seq<char>, right: Seq<char>) -> Result<LinkModel, BoardFailure> {
    match stock::rows_named(files, left) {
        None => Err(BoardFailure::UnknownSpec(left)),
        Some(left_rows) => match stock::rows_named(files, right) {
            None => Err(BoardFailure::UnknownSpec(right)),
            Some(right_rows) => match stock::ends_of(left_rows).east {
                None => Err(BoardFailure::Missing("east anchor"@)),
                Some(left_end) => match stock::ends_of(right_rows).west {
                    None => Err(BoardFailure::Missing("west anchor"@)),
                    Some(right_end) => match joining(left_rows, right_rows) {
                        Err(failure) => Err(failure),
                        Ok(connector) => match stock::rows_named(files, connector) {
                            None => Err(BoardFailure::UnknownSpec(connector)),
                            Some(rows) => link_through(
                                (left, left_end),
                                (right, right_end),
                                connector,
                                stock::ends_of(rows),
                            ),
                        },
                    },
                },
            },
        },
    }
}

/// How two pieces are linked from north to south.
pub open spec fn link_down(files: &PatternFiles, top: Seq<char>, bottom: Seq<char>) -> Result<LinkModel, BoardFailure> {
    match stock::rows_named(files, top) {
        None => Err(BoardFailure::UnknownSpec(top)),
        Some(top_rows) => match stock::rows_named(files, bottom) {
            None => Err(BoardFailure::UnknownSpec(bottom)),
            Some(bottom_rows) => match stock::ends_of(top_rows).south {
                None => Err(BoardFailure::Missing("south anchor"@)),
                Some(top_end) => match stock::ends_of(bottom_rows).north {
                    None => Err(BoardFailure::Missing("north anchor"@)),
                    Some(bottom_end) => if !adds_up_down(top_end, bottom_end) {
                        Err(BoardFailure::TooLarge)
                    } else {
                        let default = meeting_down(top_end, bottom_end);
                        Ok(
                            LinkModel {
                                connector: Seq::empty(),
                                default,
                                candidates: all_candidates(known_below(top, bottom), default, false),
                            },
                        )
                    },
                },
            },
        },
    }
}

/// How two pieces are linked.
#[derive(Debug)]
pub struct PieceLink {
    pub connector: &'static str,
    pub default: HorizontalPlacementCandidate,
    pub candidates: Vec<HorizontalPlacementCandidate>,
}

/// The link is what the model says.
pub open spec fn is_link(link: PieceLink, model: LinkModel) -> bool {
    &&& link.connector@ == model.connector
    &&& link.default == model.default
    &&& link.candidates@ == model.candidates
}

/// A result is the link, or the failure.
pub open spec fn is_link_result(
    result: Result<PieceLink, BoardError>,
    want: Result<LinkModel, BoardFailure>,
) -> bool {
    match want {
        Ok(model) => result matches Ok(link) && is_link(link, model),
        Err(failure) => result matches Err(error) && error@ == failure,
    }
}

fn distance_of(a: (i32, i32), b: (i32, i32)) -> (steps: i128)
    ensures
        steps == corridors::distance(pair_vector(a), pair_vector(b)),
{
    manhattan_delta_distance((a.0 as i128, a.1 as i128), (b.0 as i128, b.1 as i128))
}

fn is_farther(
    a: HorizontalPlacementCandidate,
    b: HorizontalPlacementCandidate,
    from: HorizontalPlacementCandidate,
) -> (result: bool)
    ensures
        result == farther(a, b, from),
{
    let first: i128 = distance_of(a.right_delta, from.right_delta);
    let second: i128 = distance_of(b.right_delta, from.right_delta);
    first > second || (first == second && distance_of(a.connector_delta, from.connector_delta) > distance_of(
        b.connector_delta,
        from.connector_delta,
    ))
}

proof fn lemma_put(
    list: Seq<HorizontalPlacementCandidate>,
    candidate: HorizontalPlacementCandidate,
    from: HorizontalPlacementCandidate,
    at: int,
)
    requires
        0 <= at <= list.len(),
        at > 0 ==> !farther(list[at - 1], candidate, from),
        forall|i: int| at <= i < list.len() ==> farther(#[trigger] list[i], candidate, from),
    ensures
        put(list, candidate, from) == list.insert(at, candidate),
    decreases list.len(),
{
    if at < list.len() {
        assert(farther(list[list.len() - 1], candidate, from));
        lemma_put(list.drop_last(), candidate, from, at);
        assert(list.drop_last().insert(at, candidate).push(list.last()) =~= list.insert(at, candidate));
    } else {
        assert(list.push(candidate) =~= list.insert(at, candidate));
    }
}

/// The places where a piece may stand, the preferred one first.
pub fn ordered_places(list: &Vec<HorizontalPlacementCandidate>, default: HorizontalPlacementCandidate) -> (places: Vec<
    (i128, i128),
>)
    ensures
        places@ == allowed_places(list@, default),
{
    let mut sorted: Vec<HorizontalPlacementCandidate> = Vec::new();
    let mut k: usize = 0;
    while k < list.len()
        invariant
            k <= list@.len(),
            sorted@ == nearest_first(list@, default, k as nat),
        decreases list.len() - k,
    {
        let mut at: usize = sorted.len();
        while at > 0 && is_farther(sorted[at - 1], list[k], default)
            invariant
                k < list@.len(),
                at <= sorted@.len(),
                forall|i: int| at <= i < sorted@.len() ==> farther(#[trigger] sorted@[i], list@[k as int], default),
            decreases at,
        {
            at -= 1;
        }
        proof {
            lemma_put(sorted@, list@[k as int], default, at as int);
        }
        sorted.insert(at, list[k]);
        k += 1;
    }
    let mut places: Vec<(i128, i128)> = Vec::new();
    let mut m: usize = 0;
    while m < sorted.len()
        invariant
            m <= sorted@.len(),
            places@ == places_of(sorted@.take(m as int)),
        decreases sorted.len() - m,
    {
        let place: (i32, i32) = sorted[m].right_delta;
        places.push((place.0 as i128, place.1 as i128));
        assert(places@ =~= places_of(sorted@.take(m + 1)));
        m += 1;
    }
    assert(sorted@.take(m as int) =~= sorted@);
    places
}

/// Adds a candidate, unless one for the same place is there.
fn push_unique_candidate(list: &mut Vec<HorizontalPlacementCandidate>, candidate: HorizontalPlacementCandidate)
    ensures
        final(list)@ == with_new(old(list)@, candidate),
{
    let mut i: usize = 0;
    while i < list.len()
        invariant
            i <= list@.len(),
            list@ == old(list)@,
            forall|j: int| 0 <= j < i ==> (#[trigger] list@[j]).right_delta != candidate.right_delta,
        decreases list.len() - i,
    {
        let there: (i32, i32) = list[i].right_delta;
        if there.0 == candidate.right_delta.0 && there.1 == candidate.right_delta.1 {
            assert(list@[i as int].right_delta == candidate.right_delta);
            return;
        }
        i += 1;
    }
    list.push(candidate);
}

/// Adds the slid candidates.
fn complete_candidates(
    known: Vec<HorizontalPlacementCandidate>,
    default: HorizontalPlacementCandidate,
    level: bool,
) -> (list: Vec<HorizontalPlacementCandidate>)
    requires
        can_slide(pair_vector(default.right_delta), level),
    ensures
        list@ == all_candidates(known@, default, level),
{
    let mut list: Vec<HorizontalPlacementCandidate> = known;
    let mut steps: i32 = -6;
    let ghost mut k: nat = 0;
    while steps <= 6
        invariant
            -6 <= steps <= 9,
            steps == 3 * k - 6,
            k <= 5,
            list@ == completed(known@, default, level, k),
            can_slide(pair_vector(default.right_delta), level),
        decreases 9 - steps,
    {
        let right_delta: (i32, i32) = if level {
            (default.right_delta.0 + steps, default.right_delta.1)
        } else {
            (default.right_delta.0, default.right_delta.1 + steps)
        };
        assert(slides()[k as int] == steps);
        push_unique_candidate(
            &mut list,
            HorizontalPlacementCandidate { connector_delta: default.connector_delta, right_delta },
        );
        proof {
            k = k + 1;
        }
        steps += 3;
    }
    list
}

/// The sum of two numbers, if it has 32 bits.
fn sum_of(a: i32, b: i32) -> (sum: Option<i32>)
    ensures
        sum == (if i32::MIN <= a + b <= i32::MAX {
            Some((a + b) as i32)
        } else {
            None
        }),
{
    let total: i64 = a as i64 + b as i64;
    if total < -0x8000_0000 || total > 0x7fff_ffff {
        None
    } else {
        Some(total as i32)
    }
}

/// The difference of two numbers, if it has 32 bits.
fn difference_of(a: i32, b: i32) -> (difference: Option<i32>)
    ensures
        difference == (if i32::MIN <= a - b <= i32::MAX {
            Some((a - b) as i32)
        } else {
            None
        }),
{
    let total: i64 = a as i64 - b as i64;
    if total < -0x8000_0000 || total > 0x7fff_ffff {
        None
    } else {
        Some(total as i32)
    }
}

/// The sum of two pairs.
fn pair_sum(a: (i32, i32), b: (i32, i32)) -> (sum: Option<(i32, i32)>)
    ensures
        match sum {
            Some(sum) => pair_vector(sum) == corridors::plus(pair_vector(a), pair_vector(b)),
            None => !is_pair(corridors::plus(pair_vector(a), pair_vector(b))),
        },
{
    match (sum_of(a.0, b.0), sum_of(a.1, b.1)) {
        (Some(x), Some(y)) => Some((x, y)),
        _ => None,
    }
}

/// The difference of two pairs.
fn pair_difference(a: (i32, i32), b: (i32, i32)) -> (difference: Option<(i32, i32)>)
    ensures
        match difference {
            Some(difference) => pair_vector(difference) == corridors::minus(pair_vector(a), pair_vector(b)),
            None => !is_pair(corridors::minus(pair_vector(a), pair_vector(b))),
        },
{
    match (difference_of(a.0, b.0), difference_of(a.1, b.1)) {
        (Some(x), Some(y)) => Some((x, y)),
        _ => None,
    }
}

/// The coordinates of a cell, cut to 32 bits.
fn cell_pair(cell: CellCoord) -> (pair: (i32, i32))
    ensures
        pair_vector(pair) == cell_vector(cell),
{
    (cell.x as i32, cell.y as i32)
}

/// Whether a piece may be slid along an axis.
fn is_slidable(place: (i32, i32), level: bool) -> (result: bool)
    ensures
        result == can_slide(pair_vector(place), level),
{
    let along: i32 = if level {
        place.0
    } else {
        place.1
    };
    -0x7fff_fffa <= along && along <= 0x7fff_fff9
}

fn default_horizontal_placement_candidate(
    left: CellCoord,
    right: CellCoord,
    west: CellCoord,
    east: CellCoord,
) -> (candidate: Option<HorizontalPlacementCandidate>)
    ensures
        match candidate {
            Some(candidate) => {
                &&& adds_up_across(left, right, west, east)
                &&& candidate == meeting_across(left, right, west, east)
                &&& can_slide(pair_vector(candidate.right_delta), true)
            },
            None => !adds_up_across(left, right, west, east),
        },
{
    let connector: (i32, i32) = match pair_difference(cell_pair(left), cell_pair(west)) {
        Some(connector) => connector,
        None => {
            return None;
        },
    };
    let beyond: (i32, i32) = match pair_sum(connector, cell_pair(east)) {
        Some(beyond) => beyond,
        None => {
            return None;
        },
    };
    match pair_difference(beyond, cell_pair(right)) {
        Some(place) => {
            if is_slidable(place, true) {
                Some(HorizontalPlacementCandidate { connector_delta: connector, right_delta: place })
            } else {
                None
            }
        },
        None => None,
    }
}

fn default_vertical_placement_candidate(top: CellCoord, bottom: CellCoord) -> (candidate: Option<
    HorizontalPlacementCandidate,
>)
    ensures
        match candidate {
            Some(candidate) => {
                &&& adds_up_down(top, bottom)
                &&& candidate == meeting_down(top, bottom)
                &&& can_slide(pair_vector(candidate.right_delta), false)
            },
            None => !adds_up_down(top, bottom),
        },
{
    match pair_difference(cell_pair(top), cell_pair(bottom)) {
        Some(place) => {
            if is_slidable(place, false) {
                Some(HorizontalPlacementCandidate { connector_delta: (0, 0), right_delta: place })
            } else {
                None
            }
        },
        None => None,
    }
}

/// The known candidates for a piece below another.
fn known_below_candidates(top: &str, bottom: &str) -> (list: Vec<HorizontalPlacementCandidate>)
    ensures
        list@ == known_below(top@, bottom@),
{
    let known: Vec<VerticalPlacementCandidate> = known_vertical_placement_candidates(top, bottom);
    let mut list: Vec<HorizontalPlacementCandidate> = Vec::new();
    let mut k: usize = 0;
    while k < known.len()
        invariant
            k <= known@.len(),
            known@ == candidates::known_down(top@, bottom@),
            list@ == known_below(top@, bottom@).take(k as int),
        decreases known.len() - k,
    {
        list.push(HorizontalPlacementCandidate { connector_delta: (0, 0), right_delta: known[k].bottom_delta });
        assert(list@ =~= known_below(top@, bottom@).take(k + 1));
        k += 1;
    }
    assert(list@ =~= known_below(top@, bottom@));
    list
}

/// The connector between two patterns, by the phases of their wires.
pub(crate) fn connector_between(stock: &PublishedLibrary, left: usize, right: usize, files: Ghost<&PatternFiles>) -> (result: Result<
    &'static str,
    BoardError,
>)
    requires
        stock.wf(files@),
        left < stock.patterns@.len(),
        right < stock.patterns@.len(),
    ensures
        match joining(stock.patterns@[left as int]@, stock.patterns@[right as int]@) {
            Ok(name) => result matches Ok(found) && found@ == name,
            Err(failure) => result matches Err(error) && error@ == failure,
        },
{
    let west: i8 = match stock.patterns[left].phase_alignment().0 {
        Some(phase) => phase,
        None => {
            return Err(BoardError::Missing { what: "east phase" });
        },
    };
    let east: i8 = match stock.patterns[right].phase_alignment().2 {
        Some(phase) => phase,
        None => {
            return Err(BoardError::Missing { what: "west phase" });
        },
    };
    match connector_joining(west, east) {
        Some(name) => Ok(name),
        None => Err(BoardError::MissingConnector { west, east }),
    }
}

/// How two pieces are linked from west to east.
pub(crate) fn horizontal_candidates(
    stock: &PublishedLibrary,
    files: Ghost<&PatternFiles>,
    left: &'static str,
    right: &'static str,
) -> (result: Result<PieceLink, BoardError>)
    requires
        stock.wf(files@),
    ensures
        is_link_result(result, link_across(files@, left@, right@)),
{
    let left_at: usize = match stock.find(files, left) {
        Some(i) => i,
        None => {
            return Err(BoardError::UnknownSpec { name: left });
        },
    };
    let right_at: usize = match stock.find(files, right) {
        Some(i) => i,
        None => {
            return Err(BoardError::UnknownSpec { name: right });
        },
    };
    let left_end: CellCoord = match stock.anchors[left_at].east {
        Some(end) => end,
        None => {
            return Err(BoardError::Missing { what: "east anchor" });
        },
    };
    let right_end: CellCoord = match stock.anchors[right_at].west {
        Some(end) => end,
        None => {
            return Err(BoardError::Missing { what: "west anchor" });
        },
    };
    let connector: &'static str = match connector_between(stock, left_at, right_at, files) {
        Ok(name) => name,
        Err(error) => {
            return Err(error);
        },
    };
    let at: usize = match stock.find(files, connector) {
        Some(i) => i,
        None => {
            return Err(BoardError::UnknownSpec { name: connector });
        },
    };
    let west: CellCoord = match stock.anchors[at].west {
        Some(end) => end,
        None => {
            return Err(BoardError::Missing { what: "connector west anchor" });
        },
    };
    let east: CellCoord = match stock.anchors[at].east {
        Some(end) => end,
        None => {
            return Err(BoardError::Missing { what: "connector east anchor" });
        },
    };
    let default: HorizontalPlacementCandidate = match default_horizontal_placement_candidate(
        left_end,
        right_end,
        west,
        east,
    ) {
        Some(default) => default,
        None => {
            return Err(BoardError::TooLarge);
        },
    };
    let known: Vec<HorizontalPlacementCandidate> = known_horizontal_placement_candidates(left, connector, right);
    let candidates: Vec<HorizontalPlacementCandidate> = complete_candidates(known, default, true);
    Ok(PieceLink { connector, default, candidates })
}

/// How two pieces are linked from north to south.
pub(crate) fn vertical_candidates(
    stock: &PublishedLibrary,
    files: Ghost<&PatternFiles>,
    top: &'static str,
    bottom: &'static str,
) -> (result: Result<PieceLink, BoardError>)
    requires
        stock.wf(files@),
    ensures
        is_link_result(result, link_down(files@, top@, bottom@)),
{
    let top_at: usize = match stock.find(files, top) {
        Some(i) => i,
        None => {
            return Err(BoardError::UnknownSpec { name: top });
        },
    };
    let bottom_at: usize = match stock.find(files, bottom) {
        Some(i) => i,
        None => {
            return Err(BoardError::UnknownSpec { name: bottom });
        },
    };
    let top_end: CellCoord = match stock.anchors[top_at].south {
        Some(end) => end,
        None => {
            return Err(BoardError::Missing { what: "south anchor" });
        },
    };
    let bottom_end: CellCoord = match stock.anchors[bottom_at].north {
        Some(end) => end,
        None => {
            return Err(BoardError::Missing { what: "north anchor" });
        },
    };
    let default: HorizontalPlacementCandidate = match default_vertical_placement_candidate(top_end, bottom_end) {
        Some(default) => default,
        None => {
            return Err(BoardError::TooLarge);
        },
    };
    let known: Vec<HorizontalPlacementCandidate> = known_below_candidates(top, bottom);
    let candidates: Vec<HorizontalPlacementCandidate> = complete_candidates(known, default, false);
    proof {
        reveal_strlit("");
        assert(""@ =~= Seq::<char>::empty());
    }
    Ok(PieceLink { connector: "", default, candidates })
}

proof fn lemma_put_first(
    list: Seq<HorizontalPlacementCandidate>,
    candidate: HorizontalPlacementCandidate,
    from: HorizontalPlacementCandidate,
)
    requires
        forall|i: int| 0 <= i < list.len() ==> !farther(list[0], #[trigger] list[i], from),
    ensures
        put(list, candidate, from).len() == list.len() + 1,
        forall|i: int|
            0 <= i < put(list, candidate, from).len() ==> !farther(
                put(list, candidate, from)[0],
                #[trigger] put(list, candidate, from)[i],
                from,
            ),
        !farther(put(list, candidate, from)[0], candidate, from),
        list.len() > 0 ==> !farther(put(list, candidate, from)[0], list[0], from),
    decreases list.len(),
{
    if list.len() > 0 {
        assert(!farther(list[0], list[list.len() - 1], from));
        if farther(list.last(), candidate, from) {
            let rest = list.drop_last();
            assert forall|i: int| 0 <= i < rest.len() implies !farther(rest[0], #[trigger] rest[i], from) by {
                assert(rest[i] == list[i]);
            }
            lemma_put_first(rest, candidate, from);
        }
    }
}

proof fn lemma_nearest_first(
    list: Seq<HorizontalPlacementCandidate>,
    from: HorizontalPlacementCandidate,
    k: nat,
)
    requires
        k <= list.len(),
    ensures
        nearest_first(list, from, k).len() == k,
        forall|i: int|
            0 <= i < k ==> !farther(nearest_first(list, from, k)[0], #[trigger] nearest_first(list, from, k)[i], from),
        forall|i: int| 0 <= i < k ==> !farther(nearest_first(list, from, k)[0], #[trigger] list[i], from),
    decreases k,
{
    if k > 0 {
        lemma_nearest_first(list, from, (k - 1) as nat);
        lemma_put_first(nearest_first(list, from, (k - 1) as nat), list[k - 1], from);
    }
}

proof fn lemma_slid_there(
    known: Seq<HorizontalPlacementCandidate>,
    default: HorizontalPlacementCandidate,
    level: bool,
    j: nat,
    k: nat,
)
    requires
        j < k <= 5,
    ensures
        has_place(completed(known, default, level, k), slid(default, level, slides()[j as int]).right_delta),
    decreases k,
{
    let before = completed(known, default, level, (k - 1) as nat);
    let added = slid(default, level, slides()[k - 1]);
    let after = with_new(before, added);
    if j == k - 1 {
        if !has_place(before, added.right_delta) {
            assert(after[before.len() as int].right_delta == added.right_delta);
        }
    } else {
        lemma_slid_there(known, default, level, j, (k - 1) as nat);
        let place = slid(default, level, slides()[j as int]).right_delta;
        let i = choose|i: int| 0 <= i < before.len() && (#[trigger] before[i]).right_delta == place;
        assert(after[i].right_delta == place);
    }
}

/// The place that a piece prefers is the one where the ends of the wires meet.
pub proof fn law_preferred_place(
    known: Seq<HorizontalPlacementCandidate>,
    default: HorizontalPlacementCandidate,
    level: bool,
)
    ensures
        allowed_places(all_candidates(known, default, level), default).len() > 0,
        corridors::vector(allowed_places(all_candidates(known, default, level), default)[0]) == pair_vector(
            default.right_delta,
        ),
{
    let list = all_candidates(known, default, level);
    lemma_slid_there(known, default, level, 2, 5);
    assert(slides()[2] == 0);
    let i = choose|i: int| 0 <= i < list.len() && (#[trigger] list[i]).right_delta == default.right_delta;
    lemma_nearest_first(list, default, list.len());
    let first = nearest_first(list, default, list.len())[0];
    assert(!farther(first, list[i], default));
}

} // verus!
