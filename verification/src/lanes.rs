//! The lanes of a routing: where instances stand, and the path of every net.
//!
//! Instances stand far apart on a grid. A net leaves its source, moves to a row of its own,
//! follows it to a column of its own outside all instances, climbs to a trunk row above
//! all instances, and reaches its target in the same way backwards.

use crate::cellmap::Place;
use crate::compiler::{
    CompiledConstruction, ConstructionModel, Endpoint, EndpointModel, InstanceModel, MacroInstance, MacroKind,
    MacroModel, PortRef,
};
use crate::routing::{macro_port_dir, RouteDir, RouteDirs, RoutingError, RoutingFailure};
use crate::text::same_text;
use crate::cellmap;
use crate::compiler;
use crate::routing;
use vstd::prelude::*;

verus! {

/// The place that lies a number of steps away.
pub open spec fn far(place: Place, dir: RouteDir, steps: int) -> Place {
    match dir {
        RouteDir::N => (place.0, place.1 - steps),
        RouteDir::E => (place.0 + steps, place.1),
        RouteDir::S => (place.0, place.1 + steps),
        RouteDir::W => (place.0 - steps, place.1),
    }
}

/// The neighbouring place.
pub open spec fn moved(place: Place, dir: RouteDir) -> Place {
    far(place, dir, 1)
}

/// The places, as numbers without bound.
pub open spec fn places(cells: Seq<(i32, i32)>) -> Seq<Place> {
    Seq::new(cells.len(), |i: int| cellmap::place_of(cells[i]))
}

/// The number of nets for which room is kept.
pub open spec fn net_total(c: ConstructionModel) -> int {
    if c.nets.len() == 0 {
        1
    } else {
        c.nets.len() as int
    }
}

/// The distance between instances in a row.
pub open spec fn pitch_x(c: ConstructionModel) -> int {
    240 + net_total(c) * 12
}

/// The distance between instances in a column.
pub open spec fn pitch_y(c: ConstructionModel) -> int {
    180 + net_total(c) * 12
}

/// The distance of the lanes outside all instances.
pub open spec fn margin(c: ConstructionModel) -> int {
    90 + net_total(c) * 12
}

/// The centre of a position of the grid of instances.
pub open spec fn centre(c: ConstructionModel, column: nat, row: nat) -> Place {
    (column * pitch_x(c) + pitch_x(c) / 2, row * pitch_y(c) + pitch_y(c) / 2)
}

/// Where the last of the first `k` instances with a number stands.
pub open spec fn position_among(c: ConstructionModel, k: nat, id: nat) -> Place
    decreases k,
{
    if k == 0 {
        (0, 0)
    } else if c.instances[k - 1].id == id {
        centre(c, c.instances[k - 1].column, c.instances[k - 1].row)
    } else {
        position_among(c, (k - 1) as nat, id)
    }
}

/// Where the instance with a number stands.
pub open spec fn position(c: ConstructionModel, id: nat) -> Place {
    position_among(c, c.instances.len(), id)
}

/// The kind of the first of the first `k` instances with a number.
pub open spec fn kind_among(instances: Seq<InstanceModel>, k: nat, id: nat) -> Option<MacroModel>
    decreases k,
{
    if k == 0 {
        None
    } else {
        match kind_among(instances, (k - 1) as nat, id) {
            Some(kind) => Some(kind),
            None => if instances[k - 1].id == id {
                Some(instances[k - 1].kind)
            } else {
                None
            },
        }
    }
}

/// The kind of the instance with a number.
pub open spec fn kind_of(c: ConstructionModel, id: nat) -> Option<MacroModel> {
    kind_among(c.instances, c.instances.len(), id)
}

/// The columns in which the instances stand.
pub open spec fn columns(c: ConstructionModel) -> Seq<int> {
    Seq::new(c.instances.len(), |i: int| position(c, c.instances[i].id).0)
}

/// The rows in which the instances stand.
pub open spec fn rows(c: ConstructionModel) -> Seq<int> {
    Seq::new(c.instances.len(), |i: int| position(c, c.instances[i].id).1)
}

/// The least of some numbers, or zero.
pub open spec fn least(values: Seq<int>) -> int
    decreases values.len(),
{
    if values.len() == 0 {
        0
    } else if values.len() == 1 || values.last() < least(values.drop_last()) {
        values.last()
    } else {
        least(values.drop_last())
    }
}

/// The greatest of some numbers, or zero.
pub open spec fn greatest(values: Seq<int>) -> int
    decreases values.len(),
{
    if values.len() == 0 {
        0
    } else if values.len() == 1 || values.last() > greatest(values.drop_last()) {
        values.last()
    } else {
        greatest(values.drop_last())
    }
}

/// The end of a path: the cell beside an instance, and the direction to the instance.
pub struct StubModel {
    pub place: Place,
    pub back: RouteDir,
}

/// The end of a path: the cell beside an instance, and the direction to the instance.
#[derive(Debug, Clone, Copy)]
pub struct Stub {
    pub coord: (i32, i32),
    pub back_dir: RouteDir,
}

impl View for Stub {
    type V = StubModel;

    open spec fn view(&self) -> StubModel {
        StubModel { place: cellmap::place_of(self.coord), back: self.back_dir }
    }
}

/// The end of a path at a port of an instance.
pub open spec fn stub_of(c: ConstructionModel, end: EndpointModel) -> Result<StubModel, RoutingFailure> {
    match end {
        EndpointModel::External(_) => Err(RoutingFailure::ExternalStub),
        EndpointModel::Port(id, port) => match kind_of(c, id) {
            None => Err(RoutingFailure::UnknownInstance(id)),
            Some(kind) => match routing::port_dir(kind, port) {
                Err(failure) => Err(failure),
                Ok(dir) => Ok(StubModel { place: moved(position(c, id), dir), back: routing::back(dir) }),
            },
        },
    }
}

/// The end of the path of an outside input: the inputs stand in the order of their names,
/// left of all instances.
pub open spec fn input_stub(c: ConstructionModel, net: nat, variable: Seq<char>) -> StubModel {
    StubModel {
        place: (-9 - net * 6, c.variables.index_of(variable) * pitch_y(c) + pitch_y(c) / 2),
        back: RouteDir::E,
    }
}

/// The end of the path at the source of a net.
pub open spec fn source_of(c: ConstructionModel, net: nat) -> Result<StubModel, RoutingFailure> {
    match c.nets[net as int].from {
        EndpointModel::External(variable) => Ok(input_stub(c, net, variable)),
        EndpointModel::Port(id, port) => stub_of(c, EndpointModel::Port(id, port)),
    }
}

/// Where the path has left the instance behind.
pub open spec fn escape(stub: StubModel) -> Place {
    far(moved(stub.place, stub.back), routing::back(stub.back), 3)
}

/// The column of a net outside all instances.
pub open spec fn bus(c: ConstructionModel, outward: RouteDir, net: nat, offset: int) -> int {
    if outward == RouteDir::W {
        least(columns(c)) - margin(c) - net * 6 - offset
    } else {
        greatest(columns(c)) + margin(c) + net * 6 + offset
    }
}

/// The row of a net beside an instance.
pub open spec fn local_row(from: Place, outward: RouteDir, net: nat, offset: int) -> int {
    if outward == RouteDir::S {
        from.1 + (offset + net * 6)
    } else {
        from.1 - (offset + net * 6)
    }
}

/// The row of a net above all instances.
pub open spec fn trunk(c: ConstructionModel, net: nat) -> int {
    least(rows(c)) - margin(c) - net * 6
}

/// The corners of the path of a net.
pub open spec fn corners(c: ConstructionModel, net: nat, source: StubModel, target: StubModel) -> Seq<Place> {
    let source_out = routing::back(source.back);
    let target_out = routing::back(target.back);
    let source_row = local_row(escape(source), source_out, net, 3);
    let target_row = local_row(escape(target), target_out, net, 6);
    let source_bus = bus(c, source_out, net, 0);
    let target_bus = bus(c, target_out, net, 3);
    seq![
        source.place,
        escape(source),
        (escape(source).0, source_row),
        (source_bus, source_row),
        (source_bus, trunk(c, net)),
        (target_bus, trunk(c, net)),
        (target_bus, target_row),
        (escape(target).0, target_row),
        escape(target),
        target.place,
    ]
}

/// The sign of a number.
pub open spec fn sign(n: int) -> int {
    if n > 0 {
        1
    } else if n < 0 {
        -1
    } else {
        0
    }
}

/// The distance without its sign.
pub open spec fn distance(n: int) -> nat {
    if n < 0 {
        (-n) as nat
    } else {
        n as nat
    }
}

/// The two places lie in the same row or in the same column.
pub open spec fn aligned(a: Place, b: Place) -> bool {
    a.0 == b.0 || a.1 == b.1
}

/// The cells on the straight way from one place, which is left out, to another.
pub open spec fn straight(a: Place, b: Place) -> Seq<Place> {
    Seq::new(
        distance(b.0 - a.0) + distance(b.1 - a.1),
        |k: int| (a.0 + sign(b.0 - a.0) * (k + 1), a.1 + sign(b.1 - a.1) * (k + 1)),
    )
}

/// The path through the first corners.
pub open spec fn path_through(points: Seq<Place>, k: nat) -> Seq<Place>
    decreases k,
{
    if k == 0 {
        seq![points[0]]
    } else {
        path_through(points, (k - 1) as nat) + straight(points[k - 1], points[k as int])
    }
}

/// The path of a net.
pub open spec fn path_of(c: ConstructionModel, net: nat, source: StubModel, target: StubModel) -> Seq<Place> {
    path_through(corners(c, net, source, target), 9)
}

/// The direction from a cell to its neighbour.
pub open spec fn heading(a: Place, b: Place) -> RouteDir {
    if b == moved(a, RouteDir::N) {
        RouteDir::N
    } else if b == moved(a, RouteDir::E) {
        RouteDir::E
    } else if b == moved(a, RouteDir::S) {
        RouteDir::S
    } else {
        RouteDir::W
    }
}

/// The two cells are neighbours.
pub open spec fn adjacent(a: Place, b: Place) -> bool {
    b == moved(a, heading(a, b))
}

/// Every step leads to a neighbour.
pub open spec fn is_walk(path: Seq<Place>) -> bool {
    forall|k: int, m: int| #![trigger path[k], path[m]] 0 <= k && m == k + 1 && m < path.len() ==> adjacent(path[k], path[m])
}

/// What the lanes add to the extent of the grid of instances.
pub open spec fn reach(c: ConstructionModel) -> int {
    600 + net_total(c) * 60
}

/// The lanes stay within the coordinates of the board.
pub open spec fn board_fits(c: ConstructionModel) -> bool {
    &&& reach(c) <= i32::MAX
    &&& c.variables.len() * pitch_y(c) + reach(c) <= i32::MAX
    &&& forall|i: int|
        0 <= i < c.instances.len() ==> (#[trigger] c.instances[i]).column * pitch_x(c) + reach(c) <= i32::MAX
            && c.instances[i].row * pitch_y(c) + reach(c) <= i32::MAX
}

/// A place where an instance, or an input, can stand.
pub open spec fn inside(c: ConstructionModel, place: Place) -> bool {
    &&& 0 <= place.0 <= i32::MAX - 480 - net_total(c) * 54
    &&& 0 <= place.1 <= i32::MAX - 480 - net_total(c) * 54
}

/// A place where a lane can lie.
pub open spec fn nearby(c: ConstructionModel, place: Place) -> bool {
    &&& -120 - net_total(c) * 18 <= place.0 <= i32::MAX - 240 - net_total(c) * 30
    &&& -120 - net_total(c) * 18 <= place.1 <= i32::MAX - 240 - net_total(c) * 30
}

proof fn lemma_centre_inside(c: ConstructionModel, i: int)
    requires
        board_fits(c),
        0 <= i < c.instances.len(),
    ensures
        inside(c, centre(c, c.instances[i].column, c.instances[i].row)),
{
    let instance = c.instances[i];
    assert(instance.column * pitch_x(c) + reach(c) <= i32::MAX);
    assert(instance.column * pitch_x(c) >= 0) by (nonlinear_arith)
        requires
            instance.column >= 0,
            pitch_x(c) >= 0,
    ;
    assert(instance.row * pitch_y(c) >= 0) by (nonlinear_arith)
        requires
            instance.row >= 0,
            pitch_y(c) >= 0,
    ;
}

/// An instance stands inside.
pub proof fn lemma_position_inside(c: ConstructionModel, k: nat, id: nat)
    requires
        board_fits(c),
        k <= c.instances.len(),
    ensures
        inside(c, position_among(c, k, id)) || position_among(c, k, id) == (0int, 0int),
    decreases k,
{
    if k > 0 {
        lemma_centre_inside(c, k - 1);
        lemma_position_inside(c, (k - 1) as nat, id);
    }
}

pub proof fn lemma_least(values: Seq<int>, low: int, high: int)
    requires
        low <= 0 <= high,
        forall|i: int| 0 <= i < values.len() ==> low <= #[trigger] values[i] <= high,
    ensures
        low <= least(values) <= high,
        low <= greatest(values) <= high,
    decreases values.len(),
{
    if values.len() > 0 {
        assert(low <= values[values.len() - 1] <= high);
        let rest = values.drop_last();
        assert forall|i: int| 0 <= i < rest.len() implies low <= #[trigger] rest[i] <= high by {
            assert(values[i] == rest[i]);
        }
        lemma_least(rest, low, high);
    }
}

/// All corners of a path lie nearby, and each lies in line with the next.
pub proof fn lemma_corners(c: ConstructionModel, net: nat, source: StubModel, target: StubModel)
    requires
        board_fits(c),
        net < c.nets.len(),
        inside(c, moved(source.place, source.back)) || moved(source.place, source.back) == (0int, 0int)
            || (source.place.0 == -9 - net * 6 && source.back == RouteDir::E && inside(c, (0, source.place.1))),
        inside(c, moved(target.place, target.back)) || moved(target.place, target.back) == (0int, 0int),
    ensures
        corners(c, net, source, target).len() == 10,
        forall|k: int| 0 <= k < 10 ==> nearby(c, #[trigger] corners(c, net, source, target)[k]),
        forall|k: int, m: int| #![trigger corners(c, net, source, target)[k], corners(c, net, source, target)[m]]
            0 <= k && m == k + 1 && m < 10 ==> aligned(
                corners(c, net, source, target)[k],
                corners(c, net, source, target)[m],
            ),
{
    let high = i32::MAX - 480 - net_total(c) * 54;
    assert(0 <= high);
    assert forall|i: int| 0 <= i < columns(c).len() implies 0 <= #[trigger] columns(c)[i] <= high by {
        lemma_position_inside(c, c.instances.len(), c.instances[i].id);
    }
    assert forall|i: int| 0 <= i < rows(c).len() implies 0 <= #[trigger] rows(c)[i] <= high by {
        lemma_position_inside(c, c.instances.len(), c.instances[i].id);
    }
    lemma_least(columns(c), 0, high);
    lemma_least(rows(c), 0, high);
}

pub proof fn lemma_straight(a: Place, b: Place, k: int)
    requires
        aligned(a, b),
        0 <= k < straight(a, b).len(),
    ensures
        k == 0 ==> adjacent(a, straight(a, b)[0]),
        k > 0 ==> adjacent(straight(a, b)[k - 1], straight(a, b)[k]),
        k == straight(a, b).len() - 1 ==> straight(a, b)[k] == b,
        a.0 <= straight(a, b)[k].0 <= b.0 || b.0 <= straight(a, b)[k].0 <= a.0,
        a.1 <= straight(a, b)[k].1 <= b.1 || b.1 <= straight(a, b)[k].1 <= a.1,
{
    let dx = sign(b.0 - a.0);
    let dy = sign(b.1 - a.1);
    assert(dx * (k + 1) == (if dx > 0 { k + 1 } else if dx < 0 { -(k + 1) } else { 0 })) by (nonlinear_arith)
        requires
            dx == 1 || dx == 0 || dx == -1,
    ;
    assert(dy * (k + 1) == (if dy > 0 { k + 1 } else if dy < 0 { -(k + 1) } else { 0 })) by (nonlinear_arith)
        requires
            dy == 1 || dy == 0 || dy == -1,
    ;
    assert(dx * k == (if dx > 0 { k } else if dx < 0 { -k } else { 0 })) by (nonlinear_arith)
        requires
            dx == 1 || dx == 0 || dx == -1,
    ;
    assert(dy * k == (if dy > 0 { k } else if dy < 0 { -k } else { 0 })) by (nonlinear_arith)
        requires
            dy == 1 || dy == 0 || dy == -1,
    ;
    if k > 0 {
        let earlier = straight(a, b)[k - 1];
        assert(earlier == (a.0 + dx * k, a.1 + dy * k));
    }
}

/// A path is a walk from its first corner to its last.
pub proof fn lemma_path_through(points: Seq<Place>, k: nat)
    requires
        k < points.len(),
        forall|i: int, j: int| #![trigger points[i], points[j]]
            0 <= i && j == i + 1 && j < points.len() ==> aligned(points[i], points[j]),
    ensures
        path_through(points, k).len() >= 1,
        path_through(points, k)[0] == points[0],
        path_through(points, k).last() == points[k as int],
        is_walk(path_through(points, k)),
    decreases k,
{
    if k > 0 {
        lemma_path_through(points, (k - 1) as nat);
        let earlier = path_through(points, (k - 1) as nat);
        let more = straight(points[k - 1], points[k as int]);
        let path = path_through(points, k);
        assert(aligned(points[k - 1], points[k as int]));
        assert forall|i: int, j: int| #![trigger path[i], path[j]] 0 <= i && j == i + 1 && j < path.len() implies adjacent(
            path[i],
            path[j],
        ) by {
            if j < earlier.len() {
                assert(adjacent(earlier[i], earlier[j]));
            } else {
                lemma_straight(points[k - 1], points[k as int], j - earlier.len());
            }
        }
        if more.len() > 0 {
            lemma_straight(points[k - 1], points[k as int], more.len() - 1);
        } else {
            assert(points[k - 1] == points[k as int]);
        }
    }
}

/// The path of a net leads from its source to its target, in steps to neighbours.
pub proof fn lemma_path(c: ConstructionModel, net: nat, source: StubModel, target: StubModel)
    ensures
        path_of(c, net, source, target).len() >= 3,
        path_of(c, net, source, target)[0] == source.place,
        path_of(c, net, source, target).last() == target.place,
        is_walk(path_of(c, net, source, target)),
{
    let points = corners(c, net, source, target);
    lemma_path_through(points, 9);
    lemma_path_longer(points, 1, 9);
    reveal_with_fuel(path_through, 2);
    assert(path_through(points, 1).len() == 1 + straight(points[0], points[1]).len());
    assert(straight(points[0], points[1]).len() == 2);
}

/// All cells of a path lie nearby.
pub proof fn lemma_path_nearby(c: ConstructionModel, net: nat, source: StubModel, target: StubModel)
    requires
        board_fits(c),
        net < c.nets.len(),
        source_stands(c, net, source),
        inside(c, moved(target.place, target.back)),
    ensures
        forall|i: int|
            0 <= i < path_of(c, net, source, target).len() ==> nearby(c, #[trigger] path_of(c, net, source, target)[i]),
{
    lemma_corners(c, net, source, target);
    lemma_through_nearby(c, corners(c, net, source, target), 9);
}

proof fn lemma_through_nearby(c: ConstructionModel, points: Seq<Place>, k: nat)
    requires
        k < points.len(),
        forall|i: int| 0 <= i < points.len() ==> nearby(c, #[trigger] points[i]),
        forall|i: int, j: int| #![trigger points[i], points[j]]
            0 <= i && j == i + 1 && j < points.len() ==> aligned(points[i], points[j]),
    ensures
        forall|i: int| 0 <= i < path_through(points, k).len() ==> nearby(c, #[trigger] path_through(points, k)[i]),
    decreases k,
{
    if k > 0 {
        lemma_through_nearby(c, points, (k - 1) as nat);
        let earlier = path_through(points, (k - 1) as nat);
        let path = path_through(points, k);
        assert(aligned(points[k - 1], points[k as int]));
        assert(nearby(c, points[k - 1]) && nearby(c, points[k as int]));
        assert forall|i: int| 0 <= i < path.len() implies nearby(c, #[trigger] path[i]) by {
            if i < earlier.len() {
                assert(nearby(c, earlier[i]));
            } else {
                lemma_straight(points[k - 1], points[k as int], i - earlier.len());
            }
        }
    }
}

proof fn lemma_path_longer(points: Seq<Place>, j: nat, k: nat)
    requires
        j <= k,
    ensures
        path_through(points, j).len() <= path_through(points, k).len(),
    decreases k,
{
    if j < k {
        lemma_path_longer(points, j, (k - 1) as nat);
    }
}

/// The lanes of a construction.
pub struct Lanes<'a> {
    pub construction: &'a CompiledConstruction,
    pub pitch_x: i32,
    pub pitch_y: i32,
    pub channel_margin: i32,
    pub min_x: i32,
    pub max_x: i32,
    pub min_y: i32,
}

/// The neighbouring place.
pub fn step(place: (i32, i32), dir: RouteDir) -> (next: (i32, i32))
    requires
        i32::MIN < place.0 < i32::MAX,
        i32::MIN < place.1 < i32::MAX,
    ensures
        cellmap::place_of(next) == moved(cellmap::place_of(place), dir),
{
    match dir {
        RouteDir::N => (place.0, place.1 - 1),
        RouteDir::E => (place.0 + 1, place.1),
        RouteDir::S => (place.0, place.1 + 1),
        RouteDir::W => (place.0 - 1, place.1),
    }
}

/// The direction from a cell to its neighbour.
pub fn direction_between(from: (i32, i32), to: (i32, i32)) -> (dir: Option<RouteDir>)
    ensures
        match dir {
            Some(d) => adjacent(cellmap::place_of(from), cellmap::place_of(to)) && d == heading(
                cellmap::place_of(from),
                cellmap::place_of(to),
            ),
            None => !adjacent(cellmap::place_of(from), cellmap::place_of(to)),
        },
{
    let dx: i64 = to.0 as i64 - from.0 as i64;
    let dy: i64 = to.1 as i64 - from.1 as i64;
    if dx == 0 && dy == -1 {
        Some(RouteDir::N)
    } else if dx == 1 && dy == 0 {
        Some(RouteDir::E)
    } else if dx == 0 && dy == 1 {
        Some(RouteDir::S)
    } else if dx == -1 && dy == 0 {
        Some(RouteDir::W)
    } else {
        None
    }
}

/// Extends a path by the straight way to a place.
fn extend_straight(path: &mut Vec<(i32, i32)>, from: (i32, i32), target: (i32, i32))
    requires
        aligned(cellmap::place_of(from), cellmap::place_of(target)),
        target.0 - from.0 <= i32::MAX,
        target.0 - from.0 >= i32::MIN,
        target.1 - from.1 <= i32::MAX,
        target.1 - from.1 >= i32::MIN,
    ensures
        places(final(path)@) == places(old(path)@) + straight(cellmap::place_of(from), cellmap::place_of(target)),
{
    let ghost a = cellmap::place_of(from);
    let ghost b = cellmap::place_of(target);
    let ghost way = straight(a, b);
    let ghost before = places(path@);
    let dx: i32 = if target.0 > from.0 { 1 } else if target.0 < from.0 { -1 } else { 0 };
    let dy: i32 = if target.1 > from.1 { 1 } else if target.1 < from.1 { -1 } else { 0 };
    let mut current: (i32, i32) = from;
    let ghost mut k: int = 0;
    assert(places(path@) =~= before + way.take(0));
    while current.0 != target.0 || current.1 != target.1
        invariant
            a == cellmap::place_of(from),
            b == cellmap::place_of(target),
            aligned(a, b),
            way == straight(a, b),
            0 <= k <= way.len(),
            dx == sign(b.0 - a.0),
            dy == sign(b.1 - a.1),
            k == 0 ==> current == from,
            k > 0 ==> cellmap::place_of(current) == way[k - 1],
            places(path@) == before + way.take(k),
        decreases way.len() - k,
    {
        proof {
            if k == way.len() {
                if k > 0 {
                    lemma_straight(a, b, k - 1);
                }
                assert(false);
            }
            lemma_straight(a, b, k);
            if k > 0 {
                lemma_straight(a, b, k - 1);
                assert(way[k - 1] == (a.0 + dx * k, a.1 + dy * k));
            }
            assert(way[k] == (a.0 + dx * (k + 1), a.1 + dy * (k + 1)));
            assert(dx * (k + 1) == dx * k + dx) by (nonlinear_arith);
            assert(dy * (k + 1) == dy * k + dy) by (nonlinear_arith);
            assert(k == 0 ==> dx * k == 0 && dy * k == 0);
        }
        current = (current.0 + dx, current.1 + dy);
        let ghost earlier = path@;
        path.push(current);
        proof {
            assert(places(path@) =~= places(earlier).push(way[k]));
            assert(way.take(k + 1) =~= way.take(k).push(way[k]));
            k = k + 1;
            assert(places(path@) =~= before + way.take(k));
        }
    }
    proof {
        if k < way.len() {
            lemma_straight(a, b, k);
            if k > 0 {
                lemma_straight(a, b, k - 1);
                assert(way[k - 1] == b);
                assert(way[k - 1] == (a.0 + dx * k, a.1 + dy * k));
                assert(dx * k == (if dx > 0 { k } else if dx < 0 { -k } else { 0 })) by (nonlinear_arith)
                    requires
                        dx == 1 || dx == 0 || dx == -1,
                ;
                assert(dy * k == (if dy > 0 { k } else if dy < 0 { -k } else { 0 })) by (nonlinear_arith)
                    requires
                        dy == 1 || dy == 0 || dy == -1,
                ;
            }
            assert(false);
        }
        assert(way.take(k) =~= way);
    }
}

/// A kind that was found stays the one that is found.
pub proof fn lemma_kind_found(instances: Seq<InstanceModel>, j: nat, k: nat, id: nat)
    requires
        j <= k,
        kind_among(instances, j, id) is Some,
    ensures
        kind_among(instances, k, id) == kind_among(instances, j, id),
    decreases k,
{
    if j < k {
        lemma_kind_found(instances, j, (k - 1) as nat, id);
    }
}

/// The extremes of one more number.
proof fn lemma_extremes_step(values: Seq<int>, k: int)
    requires
        0 <= k < values.len(),
    ensures
        k == 0 ==> least(values.take(k + 1)) == values[k] && greatest(values.take(k + 1)) == values[k],
        k > 0 ==> least(values.take(k + 1)) == (if values[k] < least(values.take(k)) {
            values[k]
        } else {
            least(values.take(k))
        }),
        k > 0 ==> greatest(values.take(k + 1)) == (if values[k] > greatest(values.take(k)) {
            values[k]
        } else {
            greatest(values.take(k))
        }),
{
    assert(values.take(k + 1).drop_last() =~= values.take(k));
}

fn place_instance(column: usize, row: usize, pitch_x: i32, pitch_y: i32) -> (place: (i32, i32))
    requires
        pitch_x > 0,
        pitch_y > 0,
        column * pitch_x + pitch_x <= i32::MAX,
        row * pitch_y + pitch_y <= i32::MAX,
    ensures
        cellmap::place_of(place) == (column * pitch_x + pitch_x as int / 2, row * pitch_y + pitch_y as int / 2),
{
    assert(column <= column * pitch_x) by (nonlinear_arith)
        requires
            column >= 0,
            pitch_x > 0,
    ;
    assert(row <= row * pitch_y) by (nonlinear_arith)
        requires
            row >= 0,
            pitch_y > 0,
    ;
    (column as i32 * pitch_x + pitch_x / 2, row as i32 * pitch_y + pitch_y / 2)
}

impl<'a> Lanes<'a> {
    /// The lanes are those of the construction.
    pub open spec fn wf(&self) -> bool {
        let c = self.construction@;
        &&& board_fits(c)
        &&& self.construction.variable_inputs.wf()
        &&& self.pitch_x == pitch_x(c)
        &&& self.pitch_y == pitch_y(c)
        &&& self.channel_margin == margin(c)
        &&& self.min_x == least(columns(c))
        &&& self.max_x == greatest(columns(c))
        &&& self.min_y == least(rows(c))
    }

    /// The lanes of a construction.
    pub fn new(construction: &'a CompiledConstruction) -> (lanes: Self)
        requires
            board_fits(construction@),
            construction.variable_inputs.wf(),
        ensures
            lanes.wf(),
            lanes.construction == construction,
    {
        let ghost c = construction@;
        let net_count: i32 = if construction.nets.len() == 0 {
            1
        } else {
            construction.nets.len() as i32
        };
        assert(net_count == net_total(c));
        let mut lanes: Lanes<'a> = Lanes {
            construction,
            pitch_x: 240 + net_count * 12,
            pitch_y: 180 + net_count * 12,
            channel_margin: 90 + net_count * 12,
            min_x: 0,
            max_x: 0,
            min_y: 0,
        };
        let ghost xs = columns(c);
        let ghost ys = rows(c);
        let mut i: usize = 0;
        assert(xs.take(0) =~= Seq::<int>::empty());
        assert(ys.take(0) =~= Seq::<int>::empty());
        while i < construction.instances.len()
            invariant
                i <= construction.instances@.len(),
                c == construction@,
                board_fits(c),
                construction.variable_inputs.wf(),
                lanes.construction == construction,
                lanes.pitch_x == pitch_x(c),
                lanes.pitch_y == pitch_y(c),
                lanes.channel_margin == margin(c),
                xs == columns(c),
                ys == rows(c),
                lanes.min_x == least(xs.take(i as int)),
                lanes.max_x == greatest(xs.take(i as int)),
                lanes.min_y == least(ys.take(i as int)),
            decreases construction.instances.len() - i,
        {
            assert(c.instances[i as int] == construction.instances@[i as int]@);
            let spot: (i32, i32) = lanes.position(construction.instances[i].id.0);
            proof {
                lemma_extremes_step(xs, i as int);
                lemma_extremes_step(ys, i as int);
            }
            if i == 0 || spot.0 < lanes.min_x {
                lanes.min_x = spot.0;
            }
            if i == 0 || spot.0 > lanes.max_x {
                lanes.max_x = spot.0;
            }
            if i == 0 || spot.1 < lanes.min_y {
                lanes.min_y = spot.1;
            }
            i += 1;
        }
        assert(xs.take(i as int) =~= xs);
        assert(ys.take(i as int) =~= ys);
        lanes
    }

    /// Where the instance with a number stands.
    pub fn position(&self, id: usize) -> (place: (i32, i32))
        requires
            board_fits(self.construction@),
            self.pitch_x == pitch_x(self.construction@),
            self.pitch_y == pitch_y(self.construction@),
        ensures
            cellmap::place_of(place) == position(self.construction@, id as nat),
            inside(self.construction@, cellmap::place_of(place)),
    {
        let ghost c = self.construction@;
        let mut place: (i32, i32) = (0, 0);
        let mut k: usize = 0;
        while k < self.construction.instances.len()
            invariant
                k <= self.construction.instances@.len(),
                c == self.construction@,
                board_fits(c),
                self.pitch_x == pitch_x(c),
                self.pitch_y == pitch_y(c),
                cellmap::place_of(place) == position_among(c, k as nat, id as nat),
            decreases self.construction.instances.len() - k,
        {
            let instance: &MacroInstance = &self.construction.instances[k];
            assert(c.instances[k as int] == instance@);
            if instance.id.0 == id {
                place = place_instance(instance.column, instance.row, self.pitch_x, self.pitch_y);
            }
            k += 1;
        }
        proof {
            lemma_position_inside(c, k as nat, id as nat);
        }
        place
    }

    /// The kind of the instance with a number.
    pub fn instance_kind(&self, id: usize) -> (kind: Option<&MacroKind>)
        ensures
            match kind {
                Some(kind) => kind_of(self.construction@, id as nat) == Some(kind@),
                None => kind_of(self.construction@, id as nat) is None,
            },
    {
        let ghost c = self.construction@;
        let mut k: usize = 0;
        while k < self.construction.instances.len()
            invariant
                k <= self.construction.instances@.len(),
                c == self.construction@,
                kind_among(c.instances, k as nat, id as nat) is None,
            decreases self.construction.instances.len() - k,
        {
            let instance: &MacroInstance = &self.construction.instances[k];
            assert(c.instances[k as int] == instance@);
            if instance.id.0 == id {
                proof {
                    lemma_kind_found(c.instances, (k + 1) as nat, c.instances.len(), id as nat);
                }
                return Some(&instance.kind);
            }
            k += 1;
        }
        None
    }

    /// The end of a path at a port of an instance.
    pub fn instance_endpoint_stub(&self, end: &Endpoint) -> (result: Result<Stub, RoutingError>)
        requires
            self.wf(),
        ensures
            match stub_of(self.construction@, end@) {
                Ok(stub) => result matches Ok(found) && found@ == stub && inside(
                    self.construction@,
                    moved(stub.place, stub.back),
                ),
                Err(failure) => result matches Err(error) && error@ == failure,
            },
    {
        match end {
            Endpoint::ExternalInput { .. } => Err(RoutingError::ExternalStub),
            Endpoint::InstancePort(port) => {
                let kind: &MacroKind = match self.instance_kind(port.instance.0) {
                    Some(kind) => kind,
                    None => {
                        return Err(RoutingError::UnknownInstance { id: port.instance.0 });
                    },
                };
                let spot: (i32, i32) = self.position(port.instance.0);
                match macro_port_dir(kind, port.port) {
                    Ok(dir) => Ok(Stub { coord: step(spot, dir), back_dir: dir.opposite() }),
                    Err(error) => Err(error),
                }
            },
        }
    }

    /// The row of an outside input.
    fn external_row(&self, variable: &str) -> (row: i32)
        requires
            self.wf(),
            self.construction@.variables.contains(variable@),
        ensures
            row == self.construction@.variables.index_of(variable@) * pitch_y(self.construction@) + pitch_y(
                self.construction@,
            ) / 2,
            inside(self.construction@, (0, row as int)),
    {
        let ghost c = self.construction@;
        let ghost names = c.variables;
        proof {
            self.construction.variable_inputs.lemma_entries();
        }
        let total: usize = self.construction.variable_inputs.len();
        let mut k: usize = 0;
        while !same_text(self.construction.variable_inputs.key_at(k).as_str(), variable)
            invariant
                k < names.len(),
                total == names.len(),
                c == self.construction@,
                names == c.variables,
                names.contains(variable@),
                forall|j: int| 0 <= j < k ==> #[trigger] names[j] != variable@,
            decreases names.len() - k,
        {
            proof {
                let j = choose|j: int| 0 <= j < names.len() && names[j] == variable@;
                assert(j > k);
            }
            k += 1;
        }
        assert(names.index_of(variable@) == k);
        let pitch: i32 = self.pitch_y;
        assert(k * pitch + pitch <= names.len() * pitch) by (nonlinear_arith)
            requires
                k + 1 <= names.len(),
                pitch >= 0,
        ;
        assert(0 <= k <= k * pitch) by (nonlinear_arith)
            requires
                k >= 0,
                pitch > 0,
        ;
        k as i32 * pitch + pitch / 2
    }

    /// The end of the path at the source of a net.
    pub fn source_stub(&self, net: usize) -> (result: Result<Stub, RoutingError>)
        requires
            self.wf(),
            net < self.construction@.nets.len(),
            self.construction@.nets[net as int].from matches EndpointModel::External(variable)
                ==> self.construction@.variables.contains(variable),
        ensures
            match source_of(self.construction@, net as nat) {
                Ok(stub) => result matches Ok(found) && found@ == stub && source_stands(
                    self.construction@,
                    net as nat,
                    stub,
                ),
                Err(failure) => result matches Err(error) && error@ == failure,
            },
    {
        let from: &Endpoint = &self.construction.nets[net].from;
        assert(self.construction@.nets[net as int].from == from@);
        match from {
            Endpoint::ExternalInput { variable } => Ok(
                Stub {
                    coord: (-9 - net as i32 * 6, self.external_row(variable.as_str())),
                    back_dir: RouteDir::E,
                },
            ),
            Endpoint::InstancePort(_) => self.instance_endpoint_stub(from),
        }
    }

    /// Where the path has left the instance behind.
    fn escape_point(&self, stub: Stub) -> (place: (i32, i32))
        requires
            -0x4000_0000 <= stub.coord.0 <= i32::MAX - 10,
            -0x4000_0000 <= stub.coord.1 <= i32::MAX - 10,
        ensures
            cellmap::place_of(place) == escape(stub@),
    {
        let centre: (i32, i32) = step(stub.coord, stub.back_dir);
        match stub.back_dir.opposite() {
            RouteDir::E => (centre.0 + 3, centre.1),
            RouteDir::W => (centre.0 - 3, centre.1),
            RouteDir::N => (centre.0, centre.1 - 3),
            RouteDir::S => (centre.0, centre.1 + 3),
        }
    }

    /// The path of a net.
    pub fn route_path(&self, net: usize, source: Stub, target: Stub) -> (path: Vec<(i32, i32)>)
        requires
            self.wf(),
            net < self.construction@.nets.len(),
            source_stands(self.construction@, net as nat, source@),
            inside(self.construction@, moved(target@.place, target@.back)),
        ensures
            places(path@) == path_of(self.construction@, net as nat, source@, target@),
            path@.len() >= 3,
            is_walk(places(path@)),
    {
        let ghost c = self.construction@;
        let ghost n = net_total(c);
        let ghost points = corners(c, net as nat, source@, target@);
        proof {
            lemma_corners(c, net as nat, source@, target@);
            lemma_path(c, net as nat, source@, target@);
            assert forall|k: int| 0 <= k < 10 implies nearby(c, #[trigger] points[k]) by {}
            assert(nearby(c, points[0]) && nearby(c, points[1]) && nearby(c, points[2]) && nearby(c, points[3])
                && nearby(c, points[4]) && nearby(c, points[5]) && nearby(c, points[6]) && nearby(c, points[7])
                && nearby(c, points[8]) && nearby(c, points[9]));
        }
        let slot: i32 = net as i32 * 6;
        let source_escape: (i32, i32) = self.escape_point(source);
        let target_escape: (i32, i32) = self.escape_point(target);
        let source_out: RouteDir = source.back_dir.opposite();
        let target_out: RouteDir = target.back_dir.opposite();
        let source_row: i32 = if source_out == RouteDir::S {
            source_escape.1 + (3 + slot)
        } else {
            source_escape.1 - (3 + slot)
        };
        let target_row: i32 = if target_out == RouteDir::S {
            target_escape.1 + (6 + slot)
        } else {
            target_escape.1 - (6 + slot)
        };
        let source_bus: i32 = if source_out == RouteDir::W {
            self.min_x - self.channel_margin - slot
        } else {
            self.max_x + self.channel_margin + slot
        };
        let target_bus: i32 = if target_out == RouteDir::W {
            self.min_x - self.channel_margin - slot - 3
        } else {
            self.max_x + self.channel_margin + slot + 3
        };
        let trunk_row: i32 = self.min_y - self.channel_margin - slot;
        let mut stops: Vec<(i32, i32)> = Vec::new();
        stops.push(source.coord);
        stops.push(source_escape);
        stops.push((source_escape.0, source_row));
        stops.push((source_bus, source_row));
        stops.push((source_bus, trunk_row));
        stops.push((target_bus, trunk_row));
        stops.push((target_bus, target_row));
        stops.push((target_escape.0, target_row));
        stops.push(target_escape);
        stops.push(target.coord);
        assert(places(stops@) =~= points);
        let mut path: Vec<(i32, i32)> = Vec::new();
        path.push(source.coord);
        assert(places(path@) =~= seq![points[0]]);
        let mut k: usize = 0;
        while k < 9
            invariant
                k <= 9,
                c == self.construction@,
                board_fits(c),
                stops@.len() == 10,
                points.len() == 10,
                places(stops@) == points,
                forall|i: int| 0 <= i < 10 ==> nearby(c, #[trigger] points[i]),
                forall|i: int, j: int| #![trigger points[i], points[j]]
                    0 <= i && j == i + 1 && j < 10 ==> aligned(points[i], points[j]),
                places(path@) == path_through(points, k as nat),
            decreases 9 - k,
        {
            assert(points[k as int] == cellmap::place_of(stops@[k as int]));
            assert(points[k + 1] == cellmap::place_of(stops@[k + 1]));
            assert(nearby(c, points[k as int]) && nearby(c, points[k + 1]));
            assert(aligned(points[k as int], points[k + 1]));
            extend_straight(&mut path, stops[k], stops[k + 1]);
            k += 1;
        }
        assert(places(path@).len() == path@.len());
        path
    }
}

/// The source of a net stands at an instance, or left of all instances.
pub open spec fn source_stands(c: ConstructionModel, net: nat, stub: StubModel) -> bool {
    inside(c, moved(stub.place, stub.back)) || (stub.place.0 == -9 - net * 6 && stub.back == RouteDir::E && inside(
        c,
        (0, stub.place.1),
    ))
}

} // verus!
