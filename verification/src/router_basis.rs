//! The basis of interfaces covers every routing: the lanes of a routing lie three cells
//! apart and keep clear of the instances, so that only straight wires stand beside an
//! instance, and no two crossings above one another.

use crate::certificate;
use crate::certificate::ConstructionCertificate;
use crate::cellmap;
use crate::cellmap::Place;
use crate::compiler;
use crate::compiler::{ConstructionModel, EndpointModel, InstanceModel};
use crate::interfaces;
use crate::interfaces::{BasisError, BasisFailure, InterfaceBasisCertificate, RouterInterfaceBasis};
use crate::lanes;
use crate::library;
use crate::library::Alignment;
use crate::padding;
use crate::published::PatternFiles;
use crate::lanes::StubModel;
use crate::routing;
use crate::routing::{RouteCells, RouteDir, RouteDirs, RoutingError, RoutingFailure, RoutingWitness};
use crate::tally;
use crate::tally::Names;
use vstd::prelude::*;

verus! {

/// The place is one where instances stand: right of the inputs, on every third row and
/// every third column.
pub open spec fn on_grid(place: Place) -> bool {
    place.0 > 0 && place.1 > 0 && place.0 % 3 == 0 && place.1 % 3 == 0
}

/// Upright lanes can lie in the column.
pub open spec fn lane_column(x: int) -> bool {
    x % 3 == 0 || x < 0
}

proof fn lemma_multiple(n: nat, k: int)
    ensures
        (n * (3 * k)) % 3 == 0,
{
    assert(n * (3 * k) == 3 * (n * k)) by (nonlinear_arith);
}

/// Centres lie on the grid.
proof fn lemma_centre(c: ConstructionModel, column: nat, row: nat)
    ensures
        on_grid(lanes::centre(c, column, row)),
{
    let n = lanes::net_total(c);
    lemma_multiple(column, 80 + 4 * n);
    lemma_multiple(row, 60 + 4 * n);
    assert(lanes::pitch_x(c) == 3 * (80 + 4 * n));
    assert(lanes::pitch_y(c) == 3 * (60 + 4 * n));
    assert(column * lanes::pitch_x(c) >= 0) by (nonlinear_arith)
        requires
            lanes::pitch_x(c) >= 0,
    ;
    assert(row * lanes::pitch_y(c) >= 0) by (nonlinear_arith)
        requires
            lanes::pitch_y(c) >= 0,
    ;
    assert(lanes::pitch_x(c) / 2 == 120 + 6 * n);
    assert(lanes::pitch_y(c) / 2 == 90 + 6 * n);
}

/// An instance stands at a centre.
pub open spec fn is_centre(c: ConstructionModel, place: Place) -> bool {
    exists|column: nat, row: nat| place == #[trigger] lanes::centre(c, column, row)
}

proof fn lemma_position_among(c: ConstructionModel, k: nat, id: nat)
    requires
        k <= c.instances.len(),
        lanes::kind_among(c.instances, k, id) is Some,
    ensures
        is_centre(c, lanes::position_among(c, k, id)),
    decreases k,
{
    if k > 0 {
        if c.instances[k - 1].id == id {
            assert(lanes::position_among(c, k, id) == lanes::centre(
                c,
                c.instances[k - 1].column,
                c.instances[k - 1].row,
            ));
        } else {
            lemma_position_among(c, (k - 1) as nat, id);
        }
    }
}

/// The instance with a number stands at a centre, on the grid.
proof fn lemma_position(c: ConstructionModel, id: nat)
    requires
        lanes::kind_of(c, id) is Some,
    ensures
        is_centre(c, lanes::position(c, id)),
        on_grid(lanes::position(c, id)),
{
    lemma_position_among(c, c.instances.len(), id);
    let (column, row) = choose|column: nat, row: nat|
        lanes::position(c, id) == #[trigger] lanes::centre(c, column, row);
    lemma_centre(c, column, row);
}

/// Every instance of a construction has a kind.
proof fn lemma_kind_present(instances: Seq<InstanceModel>, k: nat, i: int)
    requires
        k <= instances.len(),
        0 <= i < k,
    ensures
        lanes::kind_among(instances, k, instances[i].id) is Some,
    decreases k,
{
    if i < k - 1 {
        lemma_kind_present(instances, (k - 1) as nat, i);
    }
}

proof fn lemma_extremes(values: Seq<int>)
    requires
        forall|i: int| 0 <= i < values.len() ==> #[trigger] values[i] % 3 == 0,
    ensures
        lanes::least(values) % 3 == 0,
        lanes::greatest(values) % 3 == 0,
        forall|i: int| 0 <= i < values.len() ==> lanes::least(values) <= #[trigger] values[i] <= lanes::greatest(values),
    decreases values.len(),
{
    if values.len() > 0 {
        let rest = values.drop_last();
        assert(values[values.len() - 1] % 3 == 0);
        assert forall|i: int| 0 <= i < rest.len() implies #[trigger] rest[i] % 3 == 0 by {
            assert(values[i] == rest[i]);
        }
        lemma_extremes(rest);
        assert forall|i: int| 0 <= i < values.len() implies lanes::least(values) <= #[trigger] values[i]
            <= lanes::greatest(values) by {
            if i < rest.len() {
                assert(values[i] == rest[i]);
            }
        }
    }
}

/// The outermost columns and rows of instances.
proof fn lemma_borders(c: ConstructionModel)
    ensures
        lanes::least(lanes::columns(c)) % 3 == 0,
        lanes::greatest(lanes::columns(c)) % 3 == 0,
        lanes::least(lanes::rows(c)) % 3 == 0,
        forall|i: int|
            0 <= i < c.instances.len() ==> lanes::least(lanes::columns(c)) <= lanes::position(
                c,
                (#[trigger] c.instances[i]).id,
            ).0 <= lanes::greatest(lanes::columns(c)) && lanes::least(lanes::rows(c)) <= lanes::position(
                c,
                c.instances[i].id,
            ).1,
{
    let columns = lanes::columns(c);
    let rows = lanes::rows(c);
    assert forall|i: int| 0 <= i < columns.len() implies #[trigger] columns[i] % 3 == 0 by {
        lemma_kind_present(c.instances, c.instances.len(), i);
        lemma_position(c, c.instances[i].id);
    }
    assert forall|i: int| 0 <= i < rows.len() implies #[trigger] rows[i] % 3 == 0 by {
        lemma_kind_present(c.instances, c.instances.len(), i);
        lemma_position(c, c.instances[i].id);
    }
    lemma_extremes(columns);
    lemma_extremes(rows);
    assert forall|i: int| 0 <= i < c.instances.len() implies lanes::least(columns) <= lanes::position(
        c,
        (#[trigger] c.instances[i]).id,
    ).0 <= lanes::greatest(columns) && lanes::least(rows) <= lanes::position(c, c.instances[i].id).1 by {
        assert(columns[i] == lanes::position(c, c.instances[i].id).0);
        assert(rows[i] == lanes::position(c, c.instances[i].id).1);
    }
}

/// No instance stands in the column.
pub open spec fn free_column(c: ConstructionModel, x: int) -> bool {
    forall|i: int| 0 <= i < c.instances.len() ==> lanes::position(c, (#[trigger] c.instances[i]).id).0 != x
}

/// No instance stands in the row.
pub open spec fn free_row(c: ConstructionModel, y: int) -> bool {
    forall|i: int| 0 <= i < c.instances.len() ==> lanes::position(c, (#[trigger] c.instances[i]).id).1 != y
}

/// Columns near that of a centre are free.
proof fn lemma_near_column(c: ConstructionModel, column: nat, d: int)
    requires
        d != 0,
        -lanes::pitch_x(c) < d < lanes::pitch_x(c),
    ensures
        free_column(c, column * lanes::pitch_x(c) + lanes::pitch_x(c) / 2 + d),
{
    let p = lanes::pitch_x(c);
    assert forall|i: int| 0 <= i < c.instances.len() implies lanes::position(c, (#[trigger] c.instances[i]).id).0
        != column * p + p / 2 + d by {
        lemma_kind_present(c.instances, c.instances.len(), i);
        lemma_position(c, c.instances[i].id);
        let place = lanes::position(c, c.instances[i].id);
        let (other, row) = choose|other: nat, row: nat| place == #[trigger] lanes::centre(c, other, row);
        assert(other * p != column * p + d) by (nonlinear_arith)
            requires
                d != 0,
                -p < d < p,
        ;
    }
}

/// Rows near that of a centre are free.
proof fn lemma_near_row(c: ConstructionModel, row: nat, d: int)
    requires
        d != 0,
        -lanes::pitch_y(c) < d < lanes::pitch_y(c),
    ensures
        free_row(c, row * lanes::pitch_y(c) + lanes::pitch_y(c) / 2 + d),
{
    let p = lanes::pitch_y(c);
    assert forall|i: int| 0 <= i < c.instances.len() implies lanes::position(c, (#[trigger] c.instances[i]).id).1
        != row * p + p / 2 + d by {
        lemma_kind_present(c.instances, c.instances.len(), i);
        lemma_position(c, c.instances[i].id);
        let place = lanes::position(c, c.instances[i].id);
        let (column, other) = choose|column: nat, other: nat| place == #[trigger] lanes::centre(c, column, other);
        assert(other * p != row * p + d) by (nonlinear_arith)
            requires
                d != 0,
                -p < d < p,
        ;
    }
}
/// Columns left of all instances are free.
proof fn lemma_left_column(c: ConstructionModel, x: int)
    requires
        x <= 0,
    ensures
        free_column(c, x),
{
    assert forall|i: int| 0 <= i < c.instances.len() implies lanes::position(c, (#[trigger] c.instances[i]).id).0
        != x by {
        lemma_kind_present(c.instances, c.instances.len(), i);
        lemma_position(c, c.instances[i].id);
    }
}

/// No instance stands at the place.
pub open spec fn clear(c: ConstructionModel, place: Place) -> bool {
    free_column(c, place.0) || free_row(c, place.1)
}

/// A place lies between two others.
pub open spec fn between(a: Place, b: Place, place: Place) -> bool {
    &&& a.0 <= place.0 <= b.0 || b.0 <= place.0 <= a.0
    &&& a.1 <= place.1 <= b.1 || b.1 <= place.1 <= a.1
}

/// The way from one place to another lies in a lane, and meets no instance.
pub open spec fn in_lane(c: ConstructionModel, a: Place, b: Place) -> bool {
    &&& a.1 == b.1 && a.0 != b.0 ==> a.1 % 3 == 0
    &&& a.0 == b.0 && a.1 != b.1 ==> lane_column(a.0)
    &&& forall|place: Place| #[trigger] between(a, b, place) ==> clear(c, place)
}

/// The path starts or ends beside the instance at a centre.
pub open spec fn beside_centre(c: ConstructionModel, stub: StubModel, column: nat, row: nat) -> bool {
    lanes::moved(stub.place, stub.back) == lanes::centre(c, column, row)
}

/// The path starts at an input.
pub open spec fn at_border(c: ConstructionModel, stub: StubModel, net: nat, row: nat) -> bool {
    stub.back == RouteDir::E && stub.place == (-9 - net * 6, row * lanes::pitch_y(c) + lanes::pitch_y(c) / 2)
}

/// The path starts, or ends, beside an instance or at an input.
pub open spec fn stands(c: ConstructionModel, stub: StubModel, net: nat) -> bool {
    ||| exists|column: nat, row: nat| #[trigger] beside_centre(c, stub, column, row)
    ||| exists|row: nat| #[trigger] at_border(c, stub, net, row)
}

/// The lanes beside the end of a path.
pub open spec fn leaves_in_lanes(c: ConstructionModel, stub: StubModel, net: nat, offset: int) -> bool {
    let away = lanes::escape(stub);
    let row = lanes::local_row(away, routing::back(stub.back), net, offset);
    &&& in_lane(c, stub.place, away)
    &&& in_lane(c, away, (away.0, row))
    &&& row % 3 == 0
    &&& free_row(c, row)
    &&& (stub.back == RouteDir::E || stub.back == RouteDir::W) ==> stub.place.1 % 3 == 0
    &&& (stub.back == RouteDir::N || stub.back == RouteDir::S) ==> lane_column(stub.place.0)
}

proof fn lemma_beside_centre(c: ConstructionModel, stub: StubModel, net: nat, offset: int, column: nat, row: nat)
    requires
        beside_centre(c, stub, column, row),
        net < lanes::net_total(c),
        offset == 3 || offset == 6,
    ensures
        leaves_in_lanes(c, stub, net, offset),
{
    let centre = lanes::centre(c, column, row);
    let out = routing::back(stub.back);
    let away = lanes::escape(stub);
    let level = lanes::local_row(away, out, net, offset);
    lemma_centre(c, column, row);
    assert(away == lanes::far(centre, out, 3));
    assert(stub.place == lanes::far(centre, out, 1));
    if out == RouteDir::E || out == RouteDir::W {
        assert forall|place: Place| #[trigger] between(stub.place, away, place) implies clear(c, place) by {
            lemma_near_column(c, column, place.0 - centre.0);
        }
        lemma_near_column(c, column, away.0 - centre.0);
        assert(level == centre.1 - (offset + net * 6));
        lemma_near_row(c, row, -(offset + net * 6));
    } else {
        assert forall|place: Place| #[trigger] between(stub.place, away, place) implies clear(c, place) by {
            lemma_near_row(c, row, place.1 - centre.1);
        }
        assert forall|place: Place| #[trigger] between(away, (away.0, level), place) implies clear(c, place) by {
            lemma_near_row(c, row, place.1 - centre.1);
        }
        lemma_near_row(c, row, level - centre.1);
    }
}

proof fn lemma_at_border(c: ConstructionModel, stub: StubModel, net: nat, offset: int, row: nat)
    requires
        at_border(c, stub, net, row),
        net < lanes::net_total(c),
        offset == 3 || offset == 6,
    ensures
        leaves_in_lanes(c, stub, net, offset),
{
    let away = lanes::escape(stub);
    let level = lanes::local_row(away, routing::back(stub.back), net, offset);
    lemma_centre(c, 0, row);
    assert(away == (-11 - net * 6, stub.place.1));
    assert forall|place: Place| #[trigger] between(stub.place, away, place) implies clear(c, place) by {
        lemma_left_column(c, place.0);
    }
    lemma_left_column(c, away.0);
    assert(level == stub.place.1 - (offset + net * 6));
    lemma_near_row(c, row, -(offset + net * 6));
}

proof fn lemma_stands(c: ConstructionModel, stub: StubModel, net: nat, offset: int)
    requires
        stands(c, stub, net),
        net < lanes::net_total(c),
        offset == 3 || offset == 6,
    ensures
        leaves_in_lanes(c, stub, net, offset),
{
    if exists|column: nat, row: nat| #[trigger] beside_centre(c, stub, column, row) {
        let (column, row) = choose|column: nat, row: nat| #[trigger] beside_centre(c, stub, column, row);
        lemma_beside_centre(c, stub, net, offset, column, row);
    } else {
        let row = choose|row: nat| #[trigger] at_border(c, stub, net, row);
        lemma_at_border(c, stub, net, offset, row);
    }
}

/// The columns outside all instances lie in lanes.
proof fn lemma_bus(c: ConstructionModel, outward: RouteDir, net: nat, offset: int)
    requires
        offset == 0 || offset == 3,
    ensures
        lanes::bus(c, outward, net, offset) % 3 == 0,
        free_column(c, lanes::bus(c, outward, net, offset)),
{
    lemma_borders(c);
    let n = lanes::net_total(c);
    assert(lanes::margin(c) == 3 * (30 + 4 * n));
    assert(n >= 1);
}

/// The rows above all instances lie in lanes.
proof fn lemma_trunk(c: ConstructionModel, net: nat)
    ensures
        lanes::trunk(c, net) % 3 == 0,
        free_row(c, lanes::trunk(c, net)),
{
    lemma_borders(c);
    let n = lanes::net_total(c);
    assert(lanes::margin(c) == 3 * (30 + 4 * n));
}

/// A way along a free row lies in a lane.
proof fn lemma_level_way(c: ConstructionModel, a: Place, b: Place)
    requires
        a.1 == b.1,
        a.1 % 3 == 0,
        free_row(c, a.1),
    ensures
        in_lane(c, a, b),
{
}

/// A way along a free column lies in a lane.
proof fn lemma_upright_way(c: ConstructionModel, a: Place, b: Place)
    requires
        a.0 == b.0,
        a.0 % 3 == 0,
        free_column(c, a.0),
    ensures
        in_lane(c, a, b),
{
}

/// The way back lies in the same lane.
proof fn lemma_way_back(c: ConstructionModel, a: Place, b: Place)
    requires
        in_lane(c, a, b),
    ensures
        in_lane(c, b, a),
{
    assert forall|place: Place| #[trigger] between(b, a, place) implies clear(c, place) by {
        assert(between(a, b, place));
    }
}

/// Every way between corners lies in a lane.
proof fn lemma_corners_in_lanes(c: ConstructionModel, net: nat, source: StubModel, target: StubModel)
    requires
        net < lanes::net_total(c),
        stands(c, source, net),
        stands(c, target, net),
    ensures
        forall|i: int, j: int|
            #![trigger lanes::corners(c, net, source, target)[i], lanes::corners(c, net, source, target)[j]]
            0 <= i && j == i + 1 && j < 10 ==> in_lane(
                c,
                lanes::corners(c, net, source, target)[i],
                lanes::corners(c, net, source, target)[j],
            ),
{
    let points = lanes::corners(c, net, source, target);
    lemma_stands(c, source, net, 3);
    lemma_stands(c, target, net, 6);
    lemma_bus(c, routing::back(source.back), net, 0);
    lemma_bus(c, routing::back(target.back), net, 3);
    lemma_trunk(c, net);
    lemma_level_way(c, points[2], points[3]);
    lemma_upright_way(c, points[3], points[4]);
    lemma_level_way(c, points[4], points[5]);
    lemma_upright_way(c, points[5], points[6]);
    lemma_level_way(c, points[6], points[7]);
    lemma_way_back(c, points[8], points[7]);
    lemma_way_back(c, points[9], points[8]);
}

/// A step of a path lies in a lane.
pub open spec fn step_in_lane(a: Place, b: Place) -> bool {
    &&& a.1 == b.1 ==> a.1 % 3 == 0
    &&& a.0 == b.0 ==> lane_column(a.0)
}

/// All steps of a path lie in lanes, and its cells meet no instance.
pub open spec fn path_in_lanes(c: ConstructionModel, path: Seq<Place>) -> bool {
    &&& forall|k: int| 0 <= k < path.len() ==> clear(c, #[trigger] path[k])
    &&& forall|k: int, m: int| #![trigger path[k], path[m]]
        0 <= k && m == k + 1 && m < path.len() ==> step_in_lane(path[k], path[m])
}

proof fn lemma_through_lanes(c: ConstructionModel, points: Seq<Place>, k: nat)
    requires
        k < points.len(),
        points.len() >= 2,
        forall|i: int, j: int| #![trigger points[i], points[j]]
            0 <= i && j == i + 1 && j < points.len() ==> lanes::aligned(points[i], points[j]) && in_lane(
                c,
                points[i],
                points[j],
            ),
    ensures
        path_in_lanes(c, lanes::path_through(points, k)),
    decreases k,
{
    if k == 0 {
        assert(in_lane(c, points[0], points[1]));
        assert(between(points[0], points[1], points[0]));
    } else {
        let prev = (k - 1) as nat;
        lemma_through_lanes(c, points, prev);
        lanes::lemma_path_through(points, prev);
        let earlier = lanes::path_through(points, prev);
        let a = points[k - 1];
        let b = points[k as int];
        let more = lanes::straight(a, b);
        let path = lanes::path_through(points, k);
        assert(lanes::aligned(a, b) && in_lane(c, a, b));
        assert forall|i: int| 0 <= i < more.len() implies between(a, b, #[trigger] more[i]) by {
            lanes::lemma_straight(a, b, i);
        }
        assert forall|i: int| 0 <= i < path.len() implies clear(c, #[trigger] path[i]) by {
            if i < earlier.len() {
                assert(path[i] == earlier[i]);
            } else {
                assert(path[i] == more[i - earlier.len()]);
                assert(between(a, b, more[i - earlier.len()]));
            }
        }
        assert forall|i: int, j: int| #![trigger path[i], path[j]] 0 <= i && j == i + 1 && j < path.len() implies step_in_lane(
            path[i],
            path[j],
        ) by {
            if j < earlier.len() {
                assert(step_in_lane(earlier[i], earlier[j]));
            } else {
                let n = j - earlier.len();
                lanes::lemma_straight(a, b, n);
                assert(path[j] == more[n]);
                if n > 0 {
                    assert(path[i] == more[n - 1]);
                    assert(between(a, b, more[n - 1]));
                } else {
                    assert(path[i] == earlier.last());
                }
                assert(between(a, b, path[j]));
            }
        }
    }
}
/// The directions of a cell lie in lanes.
pub open spec fn dirs_in_lane(place: Place, dirs: RouteDirs) -> bool {
    &&& dirs.e || dirs.w ==> place.1 % 3 == 0
    &&& dirs.n || dirs.s ==> lane_column(place.0)
}

/// All cells of a routing lie in lanes, and meet no instance.
pub open spec fn cells_in_lanes(c: ConstructionModel, cells: RouteCells) -> bool {
    forall|place: Place| #[trigger]
        cells.contains_key(place) ==> dirs_in_lane(place, cells[place]) && clear(c, place)
}

proof fn lemma_cell_dirs(c: ConstructionModel, path: Seq<Place>, k: int, source: RouteDir, target: RouteDir)
    requires
        path_in_lanes(c, path),
        lanes::is_walk(path),
        0 <= k < path.len(),
        source == RouteDir::E || source == RouteDir::W ==> path[0].1 % 3 == 0,
        source == RouteDir::N || source == RouteDir::S ==> lane_column(path[0].0),
        target == RouteDir::E || target == RouteDir::W ==> path.last().1 % 3 == 0,
        target == RouteDir::N || target == RouteDir::S ==> lane_column(path.last().0),
    ensures
        dirs_in_lane(path[k], routing::cell_dirs(path, k, source, target)),
{
    if k > 0 {
        assert(lanes::adjacent(path[k - 1], path[k]));
        assert(step_in_lane(path[k - 1], path[k]));
    }
    if k < path.len() - 1 {
        assert(lanes::adjacent(path[k], path[k + 1]));
        assert(step_in_lane(path[k], path[k + 1]));
    }
}

proof fn lemma_laid(
    c: ConstructionModel,
    cells: RouteCells,
    path: Seq<Place>,
    source: RouteDir,
    target: RouteDir,
    net: nat,
    k: nat,
)
    requires
        cells_in_lanes(c, cells),
        path_in_lanes(c, path),
        lanes::is_walk(path),
        k <= path.len(),
        source == RouteDir::E || source == RouteDir::W ==> path[0].1 % 3 == 0,
        source == RouteDir::N || source == RouteDir::S ==> lane_column(path[0].0),
        target == RouteDir::E || target == RouteDir::W ==> path.last().1 % 3 == 0,
        target == RouteDir::N || target == RouteDir::S ==> lane_column(path.last().0),
    ensures
        routing::laid(cells, path, source, target, net, k) matches Ok(after) ==> cells_in_lanes(c, after),
    decreases k,
{
    if k > 0 {
        lemma_laid(c, cells, path, source, target, net, (k - 1) as nat);
        lemma_cell_dirs(c, path, k - 1, source, target);
        match routing::laid(cells, path, source, target, net, (k - 1) as nat) {
            Err(_) => {},
            Ok(earlier) => {
                let place = path[k - 1];
                let dirs = routing::cell_dirs(path, k - 1, source, target);
                if earlier.contains_key(place) {
                    assert(dirs_in_lane(place, earlier[place]));
                }
                match routing::placed(earlier, place, dirs, net) {
                    Err(_) => {},
                    Ok(after) => {
                        assert forall|p: Place| #[trigger] after.contains_key(p) implies dirs_in_lane(p, after[p])
                            && clear(c, p) by {
                            if p != place {
                                assert(earlier.contains_key(p));
                            }
                        }
                    },
                }
            },
        }
    }
}

/// The ends of a net's path stand beside an instance or at an input.
proof fn lemma_stub_stands(c: ConstructionModel, end: EndpointModel, net: nat)
    ensures
        lanes::stub_of(c, end) matches Ok(stub) ==> stands(c, stub, net),
{
    match lanes::stub_of(c, end) {
        Err(_) => {},
        Ok(stub) => {
            let id = end->Port_0;
            lemma_position(c, id);
            let (column, row) = choose|column: nat, row: nat|
                lanes::position(c, id) == #[trigger] lanes::centre(c, column, row);
            assert(beside_centre(c, stub, column, row));
        },
    }
}

/// The source of a net's path stands beside an instance or at an input.
proof fn lemma_source_stands(c: ConstructionModel, net: nat)
    requires
        routing::sources_known(c),
        net < c.nets.len(),
        routing::routed(c, net) is Ok,
        lanes::stub_of(c, c.nets[net as int].to) is Ok,
        lanes::source_of(c, net) is Ok,
    ensures
        stands(c, lanes::source_of(c, net)->Ok_0, net),
{
    let source = lanes::source_of(c, net)->Ok_0;
    match c.nets[net as int].from {
        EndpointModel::External(variable) => {
            assert(c.nets[net as int].from matches EndpointModel::External(v) ==> c.variables.contains(v));
            let i = choose|i: int| 0 <= i < c.variables.len() && c.variables[i] == variable;
            assert(c.variables[i] == variable);
            assert(0 <= c.variables.index_of(variable));
            assert(at_border(c, source, net, c.variables.index_of(variable) as nat));
        },
        EndpointModel::Port(_, _) => {
            lemma_stub_stands(c, c.nets[net as int].from, net);
        },
    }
}

/// The path between two ends lies in lanes.
proof fn lemma_path_lanes(c: ConstructionModel, net: nat, source: StubModel, target: StubModel)
    requires
        net < c.nets.len(),
        stands(c, source, net),
        stands(c, target, net),
    ensures
        path_in_lanes(c, lanes::path_of(c, net, source, target)),
{
    let points = lanes::corners(c, net, source, target);
    lemma_corners_in_lanes(c, net, source, target);
    assert forall|i: int, j: int| #![trigger points[i], points[j]] 0 <= i && j == i + 1 && j
        < points.len() implies lanes::aligned(points[i], points[j]) && in_lane(c, points[i], points[j]) by {
        assert(in_lane(
            c,
            lanes::corners(c, net, source, target)[i],
            lanes::corners(c, net, source, target)[j],
        ));
    }
    lemma_through_lanes(c, points, 9);
}

/// One more net.
proof fn lemma_net_laid(c: ConstructionModel, cells: RouteCells, net: nat, source: StubModel, target: StubModel)
    requires
        net < c.nets.len(),
        stands(c, source, net),
        stands(c, target, net),
        cells_in_lanes(c, cells),
    ensures
        ({
            let path = lanes::path_of(c, net, source, target);
            routing::laid(cells, path, source.back, target.back, net, path.len()) matches Ok(after) ==> cells_in_lanes(
                c,
                after,
            )
        }),
{
    let path = lanes::path_of(c, net, source, target);
    lemma_path_lanes(c, net, source, target);
    lanes::lemma_path(c, net, source, target);
    assert(leaves_in_lanes(c, source, net, 3)) by {
        lemma_stands(c, source, net, 3);
    }
    assert(leaves_in_lanes(c, target, net, 6)) by {
        lemma_stands(c, target, net, 6);
    }
    lemma_laid(c, cells, path, source.back, target.back, net, path.len());
}

/// The cells of a routing lie in lanes.
proof fn lemma_routed(c: ConstructionModel, k: nat)
    requires
        routing::sources_known(c),
        k <= c.nets.len(),
    ensures
        routing::routed(c, k) matches Ok(cells) ==> cells_in_lanes(c, cells),
    decreases k,
{
    if k > 0 {
        let net = (k - 1) as nat;
        lemma_routed(c, net);
        if routing::routed(c, k) is Ok {
            let cells = routing::routed(c, net)->Ok_0;
            lemma_stub_stands(c, c.nets[net as int].to, net);
            lemma_source_stands(c, net);
            lemma_net_laid(
                c,
                cells,
                net,
                lanes::source_of(c, net)->Ok_0,
                lanes::stub_of(c, c.nets[net as int].to)->Ok_0,
            );
        }
    }
}
pub proof fn lemma_gadget_names(j: int)
    requires
        0 <= j < library::basic_table().len(),
    ensures
        library::basic_table()[j].name.len() == 14 || library::basic_table()[j].name.len() == 15
            || library::basic_table()[j].name.len() == 17 || library::basic_table()[j].name.len() == 21,
{
    reveal_strlit("charger gadget");
    reveal_strlit("splitter gadget");
    reveal_strlit("charged turn gadget 1");
    reveal_strlit("charged turn gadget 2");
    reveal_strlit("inverter gadget");
    reveal_strlit("crossing gadget");
    reveal_strlit("logic gate gadget");
    reveal_strlit("enforcer gadget");
}

/// The lengths of the names of the tiles, and their first two characters.
pub open spec fn tile_keys() -> Seq<(nat, char, char)> {
    seq![
        (20, 'h', 'o'),
        (18, 'v', 'e'),
        (12, 'N', 'E'),
        (12, 'N', 'W'),
        (12, 'S', 'W'),
        (12, 'S', 'E'),
        (13, 'N', 'O'),
        (13, 'a', 'l'),
        (13, 's', 'p'),
        (13, 'c', 'r'),
        (12, 'O', 'R'),
    ]
}

pub proof fn lemma_tile_names(t: int)
    requires
        0 <= t < library::tile_table().len(),
    ensures
        library::tile_table().len() == tile_keys().len(),
        library::tile_table()[t].name.len() == tile_keys()[t].0,
        library::tile_table()[t].name[0] == tile_keys()[t].1,
        library::tile_table()[t].name[1] == tile_keys()[t].2,
{
    reveal_strlit("horizontal wire tile");
    reveal_strlit("vertical wire tile");
    reveal_strlit("NE turn tile");
    reveal_strlit("NW turn tile");
    reveal_strlit("SW turn tile");
    reveal_strlit("SE turn tile");
    reveal_strlit("NOT gate tile");
    reveal_strlit("always-1 tile");
    reveal_strlit("splitter tile");
    reveal_strlit("crossing tile");
    reveal_strlit("OR gate tile");
}

/// A tile is found by its name.
pub proof fn lemma_tile_found(t: int)
    requires
        0 <= t < library::tile_table().len(),
    ensures
        library::spec_named(library::tile_table()[t].name) == Some(library::tile_table()[t]),
{
    let basic = library::basic_table();
    let tiles = library::tile_table();
    let all = library::part1_table();
    let name = tiles[t].name;
    lemma_tile_names(t);
    assert(all[basic.len() + t] == tiles[t]);
    assert forall|j: int| 0 <= j < basic.len() + t implies (#[trigger] all[j]).name != name by {
        if j < basic.len() {
            assert(all[j] == basic[j]);
            lemma_gadget_names(j);
        } else {
            assert(all[j] == tiles[j - basic.len()]);
            lemma_tile_names(j - basic.len());
        }
    }
    library::lemma_named_entry(all, name, basic.len() + t);
}

/// The phases of the tiles with upright wires, as the library states them.
proof fn lemma_upright_phases(files: &PatternFiles)
    ensures
        upright_phase(files, "vertical wire tile"@, true),
        upright_phase(files, "vertical wire tile"@, false),
        upright_phase(files, "NE turn tile"@, true),
        upright_phase(files, "NW turn tile"@, true),
        upright_phase(files, "SW turn tile"@, false),
        upright_phase(files, "SE turn tile"@, false),
        upright_phase(files, "crossing tile"@, true),
        upright_phase(files, "crossing tile"@, false),
        upright_phase(files, "splitter tile"@, true),
        upright_phase(files, "splitter tile"@, false),
        upright_phase(files, "OR gate tile"@, true),
        upright_phase(files, "OR gate tile"@, false),
{
    lemma_tile_found(1);
    lemma_tile_found(2);
    lemma_tile_found(3);
    lemma_tile_found(4);
    lemma_tile_found(5);
    lemma_tile_found(8);
    lemma_tile_found(9);
    lemma_tile_found(10);
}

/// The pattern has a wire in the north, or in the south.
pub open spec fn upright_phase(files: &PatternFiles, name: Seq<char>, north: bool) -> bool {
    routing::stated_alignment(files, name) matches Ok(align) && (if north {
        align.1 is Some
    } else {
        align.3 is Some
    })
}
/// No two instances stand at the same place.
pub open spec fn instances_apart(c: ConstructionModel) -> bool {
    forall|i: int, j: int| #![trigger c.instances[i], c.instances[j]]
        0 <= i < j < c.instances.len() ==> lanes::position(c, c.instances[i].id) != lanes::position(
            c,
            c.instances[j].id,
        )
}

/// The pieces of instances stand at their places, and carry the names of their kinds.
proof fn lemma_instance_pieces(c: ConstructionModel, k: nat)
    requires
        instances_apart(c),
        k <= c.instances.len(),
    ensures
        routing::instance_pieces(c, k) matches Ok(fixed) ==> {
            &&& forall|p: Place| #[trigger]
                fixed.contains_key(p) ==> exists|i: int|
                    0 <= i < k && lanes::position(c, (#[trigger] c.instances[i]).id) == p
            &&& forall|i: int|
                0 <= i < k ==> fixed.contains_key(lanes::position(c, (#[trigger] c.instances[i]).id))
                    && compiler::published_name(c.instances[i].kind) == Some(
                    fixed[lanes::position(c, c.instances[i].id)],
                )
        },
    decreases k,
{
    if k > 0 {
        lemma_instance_pieces(c, (k - 1) as nat);
        match routing::instance_pieces(c, k) {
            Err(_) => {},
            Ok(fixed) => {
                let earlier = routing::instance_pieces(c, (k - 1) as nat)->Ok_0;
                assert forall|p: Place| #[trigger] fixed.contains_key(p) implies exists|i: int|
                    0 <= i < k && lanes::position(c, (#[trigger] c.instances[i]).id) == p by {
                    if p == lanes::position(c, c.instances[k - 1].id) {
                        assert(0 <= k - 1 < k && lanes::position(c, c.instances[k - 1].id) == p);
                    } else {
                        assert(earlier.contains_key(p));
                        let i = choose|i: int|
                            0 <= i < k - 1 && lanes::position(c, (#[trigger] c.instances[i]).id) == p;
                        assert(0 <= i < k && lanes::position(c, c.instances[i].id) == p);
                    }
                }
                assert forall|i: int| 0 <= i < k implies fixed.contains_key(
                    lanes::position(c, (#[trigger] c.instances[i]).id),
                ) && compiler::published_name(c.instances[i].kind) == Some(
                    fixed[lanes::position(c, c.instances[i].id)],
                ) by {
                    if i < k - 1 {
                        assert(lanes::position(c, c.instances[i].id) != lanes::position(c, c.instances[k - 1].id));
                    }
                }
            },
        }
    }
}

/// Where instances stand apart, their numbers differ, so that each is found by its own.
proof fn lemma_found(c: ConstructionModel, k: nat, id: nat) -> (i: int)
    requires
        instances_apart(c),
        k <= c.instances.len(),
        lanes::kind_among(c.instances, k, id) is Some,
    ensures
        0 <= i < k,
        c.instances[i].id == id,
        lanes::kind_among(c.instances, k, id) == Some(c.instances[i].kind),
    decreases k,
{
    if lanes::kind_among(c.instances, (k - 1) as nat, id) is Some {
        lemma_found(c, (k - 1) as nat, id)
    } else {
        k - 1
    }
}

/// The name is that of a tile with the directions.
pub open spec fn names_tile(name: Seq<char>, dirs: RouteDirs) -> bool {
    routing::tile_of(dirs) == Some(name)
}

/// What stands at a place of a routing: an instance, or a tile in a lane.
proof fn lemma_piece(c: ConstructionModel, cells: RouteCells, fixed: Map<Place, Seq<char>>, place: Place)
    requires
        instances_apart(c),
        routing::instance_pieces(c, c.instances.len()) == Ok::<Map<Place, Seq<char>>, RoutingFailure>(fixed),
        cells_in_lanes(c, cells),
        !routing::some_untiled(cells),
        routing::all_pieces(cells, fixed).contains_key(place),
    ensures
        fixed.contains_key(place) ==> on_grid(place) && !cells.contains_key(place)
            && routing::all_pieces(cells, fixed)[place] == fixed[place] && interfaces::macro_names().contains(
            fixed[place],
        ),
        !fixed.contains_key(place) ==> cells.contains_key(place) && names_tile(
            routing::all_pieces(cells, fixed)[place],
            cells[place],
        ) && dirs_in_lane(place, cells[place]),
{
    lemma_instance_pieces(c, c.instances.len());
    if fixed.contains_key(place) {
        let i = choose|i: int|
            0 <= i < c.instances.len() && lanes::position(c, (#[trigger] c.instances[i]).id) == place;
        lemma_kind_present(c.instances, c.instances.len(), i);
        lemma_position(c, c.instances[i].id);
        if cells.contains_key(place) {
            assert(clear(c, place));
        }
        let names = interfaces::macro_names();
        assert(names[0] == "NOT gate tile"@ && names[1] == "OR gate tile"@ && names[2] == "splitter tile"@ && names[3]
            == "enforcer gadget"@);
        assert(names.contains(fixed[place]));
    } else {
        assert(cells.contains_key(place));
    }
}

/// The tiles of paths, by their names.
proof fn lemma_tile_listed(dirs: RouteDirs) -> (i: int)
    requires
        routing::tile_of(dirs) is Some,
    ensures
        0 <= i < 7,
        interfaces::routing_names().len() == 7,
        interfaces::routing_names()[i] == routing::tile_of(dirs)->Some_0,
{
    if dirs == routing::level() {
        0
    } else if dirs == routing::upright() {
        1
    } else if dirs == routing::both(RouteDir::N, RouteDir::E) {
        2
    } else if dirs == routing::both(RouteDir::N, RouteDir::W) {
        3
    } else if dirs == routing::both(RouteDir::S, RouteDir::W) {
        4
    } else if dirs == routing::both(RouteDir::E, RouteDir::S) {
        5
    } else {
        6
    }
}
/// A pattern with the phases of its wires.
pub type Profile = (Seq<char>, Alignment);

proof fn lemma_pair_with(left: Profile, rights: Seq<Profile>, k: nat, b: int)
    requires
        k <= rights.len(),
        0 <= b < k,
        left.1.0 is Some,
        rights[b].1.2 is Some,
    ensures
        interfaces::pairs_with(left, rights, k).contains(
            ((left.0, left.1.0->Some_0), (rights[b].0, rights[b].1.2->Some_0)),
        ),
    decreases k,
{
    let pair = ((left.0, left.1.0->Some_0), (rights[b].0, rights[b].1.2->Some_0));
    let earlier = interfaces::pairs_with(left, rights, (k - 1) as nat);
    let all = interfaces::pairs_with(left, rights, k);
    if b == k - 1 {
        assert(all[earlier.len() as int] == pair);
    } else {
        lemma_pair_with(left, rights, (k - 1) as nat, b);
        let i = choose|i: int| 0 <= i < earlier.len() && earlier[i] == pair;
        assert(all[i] == pair);
    }
}

proof fn lemma_pair_listed(lefts: Seq<Profile>, rights: Seq<Profile>, k: nat, a: int, b: int)
    requires
        k <= lefts.len(),
        0 <= a < k,
        0 <= b < rights.len(),
        lefts[a].1.0 is Some,
        rights[b].1.2 is Some,
    ensures
        interfaces::all_pairs(lefts, rights, k).contains(
            ((lefts[a].0, lefts[a].1.0->Some_0), (rights[b].0, rights[b].1.2->Some_0)),
        ),
    decreases k,
{
    let pair = ((lefts[a].0, lefts[a].1.0->Some_0), (rights[b].0, rights[b].1.2->Some_0));
    let earlier = interfaces::all_pairs(lefts, rights, (k - 1) as nat);
    let more = interfaces::pairs_with(lefts[k - 1], rights, rights.len());
    let all = interfaces::all_pairs(lefts, rights, k);
    if a == k - 1 {
        lemma_pair_with(lefts[a], rights, rights.len(), b);
        let i = choose|i: int| 0 <= i < more.len() && more[i] == pair;
        assert(all[earlier.len() + i] == pair);
    } else {
        lemma_pair_listed(lefts, rights, (k - 1) as nat, a, b);
        let i = choose|i: int| 0 <= i < earlier.len() && earlier[i] == pair;
        assert(all[i] == pair);
    }
}

proof fn lemma_stack_with(top: Profile, bottoms: Seq<Profile>, k: nat, b: int)
    requires
        k <= bottoms.len(),
        0 <= b < k,
        top.1.3 is Some,
        bottoms[b].1.1 is Some,
        !(top.0 == "crossing tile"@ && bottoms[b].0 == "crossing tile"@),
    ensures
        interfaces::stacks_with(top, bottoms, k).contains(seq![top.0, bottoms[b].0]),
    decreases k,
{
    let stack = seq![top.0, bottoms[b].0];
    let earlier = interfaces::stacks_with(top, bottoms, (k - 1) as nat);
    let all = interfaces::stacks_with(top, bottoms, k);
    if b == k - 1 {
        assert(all[earlier.len() as int] == stack);
    } else {
        lemma_stack_with(top, bottoms, (k - 1) as nat, b);
        let i = choose|i: int| 0 <= i < earlier.len() && earlier[i] == stack;
        assert(all[i] == stack);
    }
}

proof fn lemma_stack_listed(tops: Seq<Profile>, bottoms: Seq<Profile>, k: nat, a: int, b: int)
    requires
        k <= tops.len(),
        0 <= a < k,
        0 <= b < bottoms.len(),
        tops[a].1.3 is Some,
        bottoms[b].1.1 is Some,
        !(tops[a].0 == "crossing tile"@ && bottoms[b].0 == "crossing tile"@),
    ensures
        interfaces::all_stacks(tops, bottoms, k).contains(seq![tops[a].0, bottoms[b].0]),
    decreases k,
{
    let stack = seq![tops[a].0, bottoms[b].0];
    let earlier = interfaces::all_stacks(tops, bottoms, (k - 1) as nat);
    let more = interfaces::stacks_with(tops[k - 1], bottoms, bottoms.len());
    let all = interfaces::all_stacks(tops, bottoms, k);
    if a == k - 1 {
        lemma_stack_with(tops[a], bottoms, bottoms.len(), b);
        let i = choose|i: int| 0 <= i < more.len() && more[i] == stack;
        assert(all[earlier.len() + i] == stack);
    } else {
        lemma_stack_listed(tops, bottoms, (k - 1) as nat, a, b);
        let i = choose|i: int| 0 <= i < earlier.len() && earlier[i] == stack;
        assert(all[i] == stack);
    }
}

proof fn lemma_connected(pairs: Seq<((Seq<char>, i8), (Seq<char>, i8))>, k: nat)
    requires
        k <= pairs.len(),
    ensures
        interfaces::connected_pairs(pairs, k) matches Ok(list) ==> list.len() == k && forall|i: int|
            0 <= i < k ==> (routing::connector_for((#[trigger] pairs[i]).0.1, pairs[i].1.1) matches Some(connector)
                && list[i] == seq![pairs[i].0.0, connector, pairs[i].1.0]),
    decreases k,
{
    if k > 0 {
        lemma_connected(pairs, (k - 1) as nat);
    }
}

/// The first of three lists, or the second, or the third holds what all of them together hold.
proof fn lemma_among_three<T>(a: Seq<T>, b: Seq<T>, c: Seq<T>, x: T)
    requires
        a.contains(x) || b.contains(x) || c.contains(x),
    ensures
        (a + b + c).contains(x),
{
    let all = a + b + c;
    if a.contains(x) {
        let i = choose|i: int| 0 <= i < a.len() && a[i] == x;
        assert(all[i] == x);
    } else if b.contains(x) {
        let i = choose|i: int| 0 <= i < b.len() && b[i] == x;
        assert(all[a.len() + i] == x);
    } else {
        let i = choose|i: int| 0 <= i < c.len() && c[i] == x;
        assert(all[a.len() + b.len() + i] == x);
    }
}

/// The profiles of the basis.
pub open spec fn are_profiles(files: &PatternFiles, tiles: Seq<Profile>, macros: Seq<Profile>) -> bool {
    &&& interfaces::profiles_of(files, interfaces::routing_names(), interfaces::routing_names().len()) == Ok::<
        Seq<Profile>,
        BasisFailure,
    >(tiles)
    &&& interfaces::profiles_of(files, interfaces::macro_names(), interfaces::macro_names().len()) == Ok::<
        Seq<Profile>,
        BasisFailure,
    >(macros)
}

proof fn lemma_profiles(files: &PatternFiles, tiles: Seq<Profile>, macros: Seq<Profile>)
    requires
        are_profiles(files, tiles, macros),
    ensures
        tiles.len() == 7,
        macros.len() == 4,
        forall|i: int|
            0 <= i < 7 ==> (#[trigger] tiles[i]).0 == interfaces::routing_names()[i] && routing::stated_alignment(
                files,
                tiles[i].0,
            ) == Ok::<Alignment, RoutingFailure>(tiles[i].1),
        forall|i: int|
            0 <= i < 4 ==> (#[trigger] macros[i]).0 == interfaces::macro_names()[i] && routing::stated_alignment(
                files,
                macros[i].0,
            ) == Ok::<Alignment, RoutingFailure>(macros[i].1),
{
    interfaces::lemma_profile_count(files, interfaces::routing_names(), 7);
    interfaces::lemma_profile_count(files, interfaces::macro_names(), 4);
    assert forall|i: int| 0 <= i < 7 implies (#[trigger] tiles[i]).0 == interfaces::routing_names()[i]
        && routing::stated_alignment(files, tiles[i].0) == Ok::<Alignment, RoutingFailure>(tiles[i].1) by {
        assert(interfaces::profile_of(files, interfaces::routing_names()[i]) == Ok::<Profile, BasisFailure>(tiles[i]));
    }
    assert forall|i: int| 0 <= i < 4 implies (#[trigger] macros[i]).0 == interfaces::macro_names()[i]
        && routing::stated_alignment(files, macros[i].0) == Ok::<Alignment, RoutingFailure>(macros[i].1) by {
        assert(interfaces::profile_of(files, interfaces::macro_names()[i]) == Ok::<Profile, BasisFailure>(macros[i]));
    }
}

/// A cell beside an instance, in its row, is a straight wire.
proof fn lemma_level_beside(place: Place, dirs: RouteDirs)
    requires
        dirs_in_lane(place, dirs),
        place.0 > 0,
        place.0 % 3 != 0,
        routing::tile_of(dirs) is Some,
    ensures
        routing::tile_of(dirs) == Some(interfaces::routing_names()[0]),
{
    assert(!dirs.n && !dirs.s);
}

/// A cell above or below an instance is a straight wire.
proof fn lemma_upright_beside(place: Place, dirs: RouteDirs)
    requires
        dirs_in_lane(place, dirs),
        place.1 % 3 != 0,
        routing::tile_of(dirs) is Some,
    ensures
        routing::tile_of(dirs) == Some(interfaces::routing_names()[1]),
{
    assert(!dirs.e && !dirs.w);
}
/// What a linked end of a net tells of the places.
proof fn lemma_linked(c: ConstructionModel, end: EndpointModel, place: Place, dir: RouteDir) -> (i: int)
    requires
        instances_apart(c),
        routing::linked(c, end, place, dir),
    ensures
        0 <= i < c.instances.len(),
        on_grid(lanes::position(c, c.instances[i].id)),
        place == lanes::position(c, c.instances[i].id) || lanes::moved(place, dir) == lanes::position(
            c,
            c.instances[i].id,
        ),
        place == lanes::position(c, c.instances[i].id) ==> routing::port_dir(c.instances[i].kind, end->Port_1)
            == Ok::<RouteDir, RoutingFailure>(dir),
        place != lanes::position(c, c.instances[i].id) ==> routing::port_dir(c.instances[i].kind, end->Port_1)
            == Ok::<RouteDir, RoutingFailure>(routing::back(dir)),
{
    let id = end->Port_0;
    let i = lemma_found(c, c.instances.len(), id);
    lemma_position(c, id);
    i
}

/// The pieces of a horizontal seam are a pair of the basis.
proof fn lemma_across_listed(
    c: ConstructionModel,
    files: &PatternFiles,
    cells: RouteCells,
    fixed: Map<Place, Seq<char>>,
    place: Place,
    tiles: Seq<Profile>,
    macros: Seq<Profile>,
    list: Seq<Names>,
)
    requires
        instances_apart(c),
        routing::instance_pieces(c, c.instances.len()) == Ok::<Map<Place, Seq<char>>, RoutingFailure>(fixed),
        cells_in_lanes(c, cells),
        !routing::some_untiled(cells),
        routing::seam(c, cells, RouteDir::E).contains(place),
        routing::across(files, routing::all_pieces(cells, fixed), place) is Ok,
        are_profiles(files, tiles, macros),
        interfaces::connected_pairs(
            interfaces::basis_pairs(tiles, macros, tiles[0]),
            interfaces::basis_pairs(tiles, macros, tiles[0]).len(),
        ) == Ok::<Seq<Names>, BasisFailure>(list),
    ensures
        list.contains(routing::across(files, routing::all_pieces(cells, fixed), place)->Ok_0),
{
    let pieces = routing::all_pieces(cells, fixed);
    let next = lanes::moved(place, RouteDir::E);
    let left = pieces[place];
    let right = pieces[next];
    let pairs = interfaces::basis_pairs(tiles, macros, tiles[0]);
    let wire = seq![tiles[0]];
    lemma_piece(c, cells, fixed, place);
    lemma_piece(c, cells, fixed, next);
    lemma_profiles(files, tiles, macros);
    lemma_instance_pieces(c, c.instances.len());
    let west = routing::wire_phase(files, left, RouteDir::E)->Ok_0;
    let east = routing::wire_phase(files, right, RouteDir::W)->Ok_0;
    let pair = ((left, west), (right, east));
    if fixed.contains_key(place) {
        assert(!fixed.contains_key(next));
        lemma_level_beside(next, cells[next]);
        let a = choose|a: int| 0 <= a < 4 && interfaces::macro_names()[a] == left;
        assert(macros[a].0 == left);
        assert(tiles[0].0 == right);
        lemma_pair_listed(macros, wire, macros.len(), a, 0);
    } else if fixed.contains_key(next) {
        lemma_level_beside(place, cells[place]);
        let b = choose|b: int| 0 <= b < 4 && interfaces::macro_names()[b] == right;
        assert(macros[b].0 == right);
        assert(tiles[0].0 == left);
        lemma_pair_listed(wire, macros, 1, 0, b);
    } else {
        let a = lemma_tile_listed(cells[place]);
        let b = lemma_tile_listed(cells[next]);
        assert(tiles[a].0 == left);
        assert(tiles[b].0 == right);
        lemma_pair_listed(tiles, tiles, tiles.len(), a, b);
    }
    lemma_among_three(
        interfaces::all_pairs(tiles, tiles, tiles.len()),
        interfaces::all_pairs(macros, wire, macros.len()),
        interfaces::all_pairs(wire, macros, 1),
        pair,
    );
    assert(pairs.contains(pair));
    let i = choose|i: int| 0 <= i < pairs.len() && pairs[i] == pair;
    lemma_connected(pairs, pairs.len());
    assert(list[i] == routing::across(files, pieces, place)->Ok_0);
}

/// A tile with a wire in the south, or in the north.
proof fn lemma_tile_phase(files: &PatternFiles, dirs: RouteDirs)
    requires
        routing::tile_of(dirs) is Some,
    ensures
        dirs.n ==> upright_phase(files, routing::tile_of(dirs)->Some_0, true),
        dirs.s ==> upright_phase(files, routing::tile_of(dirs)->Some_0, false),
        routing::tile_of(dirs)->Some_0 == "crossing tile"@ ==> dirs == routing::every_way(),
{
    lemma_upright_phases(files);
    lemma_tile_names(0);
    lemma_tile_names(1);
    lemma_tile_names(2);
    lemma_tile_names(3);
    lemma_tile_names(4);
    lemma_tile_names(5);
    lemma_tile_names(9);
}

/// What a vertical seam has at its two places.
pub open spec fn seam_down(
    c: ConstructionModel,
    cells: RouteCells,
    fixed: Map<Place, Seq<char>>,
    place: Place,
) -> bool {
    &&& instances_apart(c)
    &&& routing::instance_pieces(c, c.instances.len()) == Ok::<Map<Place, Seq<char>>, RoutingFailure>(fixed)
    &&& cells_in_lanes(c, cells)
    &&& !routing::some_untiled(cells)
    &&& routing::seam(c, cells, RouteDir::S).contains(place)
    &&& routing::down(routing::all_pieces(cells, fixed), place) is Ok
}

/// Two tiles of a vertical seam.
proof fn lemma_tiles_stacked(
    c: ConstructionModel,
    files: &PatternFiles,
    cells: RouteCells,
    fixed: Map<Place, Seq<char>>,
    place: Place,
    tiles: Seq<Profile>,
    macros: Seq<Profile>,
)
    requires
        seam_down(c, cells, fixed, place),
        are_profiles(files, tiles, macros),
        routing::joined(cells, place, RouteDir::S),
    ensures
        interfaces::all_stacks(tiles, tiles, tiles.len()).contains(
            routing::down(routing::all_pieces(cells, fixed), place)->Ok_0,
        ),
{
    let pieces = routing::all_pieces(cells, fixed);
    let next = lanes::moved(place, RouteDir::S);
    lemma_piece(c, cells, fixed, place);
    lemma_piece(c, cells, fixed, next);
    lemma_profiles(files, tiles, macros);
    assert(!fixed.contains_key(place) && !fixed.contains_key(next));
    let a = lemma_tile_listed(cells[place]);
    let b = lemma_tile_listed(cells[next]);
    assert(tiles[a].0 == pieces[place]);
    assert(tiles[b].0 == pieces[next]);
    lemma_tile_phase(files, cells[place]);
    lemma_tile_phase(files, cells[next]);
    if pieces[place] == "crossing tile"@ && pieces[next] == "crossing tile"@ {
        assert(place.1 % 3 == 0 && (place.1 + 1) % 3 == 0);
    }
    lemma_stack_listed(tiles, tiles, tiles.len(), a, b);
}

/// The instance of a vertical seam has wires in the north and in the south.
proof fn lemma_instance_stacked(
    c: ConstructionModel,
    files: &PatternFiles,
    fixed: Map<Place, Seq<char>>,
    end: EndpointModel,
    place: Place,
    tiles: Seq<Profile>,
    macros: Seq<Profile>,
) -> (r: (Place, int))
    requires
        instances_apart(c),
        routing::instance_pieces(c, c.instances.len()) == Ok::<Map<Place, Seq<char>>, RoutingFailure>(fixed),
        routing::linked(c, end, place, RouteDir::S),
        are_profiles(files, tiles, macros),
    ensures
        r.0 == place || r.0 == lanes::moved(place, RouteDir::S),
        on_grid(r.0),
        fixed.contains_key(r.0),
        0 <= r.1 < macros.len(),
        macros[r.1].0 == fixed[r.0],
        macros[r.1].1.1 is Some,
        macros[r.1].1.3 is Some,
{
    lemma_profiles(files, tiles, macros);
    lemma_instance_pieces(c, c.instances.len());
    lemma_upright_phases(files);
    let i = lemma_linked(c, end, place, RouteDir::S);
    let position = lanes::position(c, c.instances[i].id);
    assert(compiler::published_name(c.instances[i].kind) == Some(fixed[position]));
    assert(c.instances[i].kind is OrGate || c.instances[i].kind is Splitter);
    let m: int = if c.instances[i].kind is OrGate {
        1
    } else {
        2
    };
    assert(macros[m].0 == fixed[position]);
    (position, m)
}

proof fn lemma_wire_no_crossing()
    ensures
        "vertical wire tile"@ != "crossing tile"@,
{
    lemma_tile_names(1);
    lemma_tile_names(9);
}

/// An instance and a wire of a vertical seam.
#[verifier::rlimit(30)]
proof fn lemma_wire_stacked(
    c: ConstructionModel,
    files: &PatternFiles,
    cells: RouteCells,
    fixed: Map<Place, Seq<char>>,
    end: EndpointModel,
    place: Place,
    tiles: Seq<Profile>,
    macros: Seq<Profile>,
)
    requires
        seam_down(c, cells, fixed, place),
        are_profiles(files, tiles, macros),
        routing::linked(c, end, place, RouteDir::S),
    ensures
        ({
            let stack = routing::down(routing::all_pieces(cells, fixed), place)->Ok_0;
            ||| interfaces::all_stacks(macros, seq![tiles[1]], macros.len()).contains(stack)
            ||| interfaces::all_stacks(seq![tiles[1]], macros, 1).contains(stack)
        }),
{
    let pieces = routing::all_pieces(cells, fixed);
    let next = lanes::moved(place, RouteDir::S);
    let wire = seq![tiles[1]];
    let (position, m) = lemma_instance_stacked(c, files, fixed, end, place, tiles, macros);
    lemma_piece(c, cells, fixed, place);
    lemma_piece(c, cells, fixed, next);
    lemma_profiles(files, tiles, macros);
    lemma_wire_no_crossing();
    assert(upright_phase(files, tiles[1].0, true) && upright_phase(files, tiles[1].0, false)) by {
        lemma_upright_phases(files);
    }
    assert(tiles[1].0 == "vertical wire tile"@);
    if place == position {
        assert(!fixed.contains_key(next));
        lemma_upright_beside(next, cells[next]);
        assert(tiles[1].0 == pieces[next]);
        lemma_stack_listed(macros, wire, macros.len(), m, 0);
    } else {
        assert(!fixed.contains_key(place));
        lemma_upright_beside(place, cells[place]);
        assert(tiles[1].0 == pieces[place]);
        lemma_stack_listed(wire, macros, 1, 0, m);
    }
}

/// The pieces of a vertical seam are a stack of the basis.
proof fn lemma_down_listed(
    c: ConstructionModel,
    files: &PatternFiles,
    cells: RouteCells,
    fixed: Map<Place, Seq<char>>,
    place: Place,
    tiles: Seq<Profile>,
    macros: Seq<Profile>,
)
    requires
        seam_down(c, cells, fixed, place),
        are_profiles(files, tiles, macros),
    ensures
        interfaces::basis_stacks(tiles, macros, tiles[1]).contains(
            routing::down(routing::all_pieces(cells, fixed), place)->Ok_0,
        ),
{
    if routing::joined(cells, place, RouteDir::S) {
        lemma_tiles_stacked(c, files, cells, fixed, place, tiles, macros);
    } else {
        let n = choose|n: int| #![trigger c.nets[n]]
            0 <= n < c.nets.len() && (routing::linked(c, c.nets[n].to, place, RouteDir::S) || routing::linked(
                c,
                c.nets[n].from,
                place,
                RouteDir::S,
            ));
        let end = if routing::linked(c, c.nets[n].to, place, RouteDir::S) {
            c.nets[n].to
        } else {
            c.nets[n].from
        };
        lemma_wire_stacked(c, files, cells, fixed, end, place, tiles, macros);
    }
    lemma_among_three(
        interfaces::all_stacks(tiles, tiles, tiles.len()),
        interfaces::all_stacks(macros, seq![tiles[1]], macros.len()),
        interfaces::all_stacks(seq![tiles[1]], macros, 1),
        routing::down(routing::all_pieces(cells, fixed), place)->Ok_0,
    );
}

proof fn lemma_across_at(files: &PatternFiles, pieces: Map<Place, Seq<char>>, order: Seq<Place>, k: nat)
    requires
        k <= order.len(),
    ensures
        routing::all_across(files, pieces, order, k) matches Ok(list) ==> list.len() == k && forall|i: int|
            0 <= i < k ==> routing::across(files, pieces, order[i]) == Ok::<Names, RoutingFailure>(#[trigger] list[i]),
    decreases k,
{
    if k > 0 {
        lemma_across_at(files, pieces, order, (k - 1) as nat);
        if let Ok(list) = routing::all_across(files, pieces, order, k) {
            let earlier = routing::all_across(files, pieces, order, (k - 1) as nat)->Ok_0;
            assert forall|i: int| 0 <= i < k implies routing::across(files, pieces, order[i]) == Ok::<
                Names,
                RoutingFailure,
            >(#[trigger] list[i]) by {
                if i < k - 1 {
                    assert(list[i] == earlier[i]);
                }
            }
        }
    }
}

proof fn lemma_down_at(pieces: Map<Place, Seq<char>>, order: Seq<Place>, k: nat)
    requires
        k <= order.len(),
    ensures
        routing::all_down(pieces, order, k) matches Ok(list) ==> list.len() == k && forall|i: int|
            0 <= i < k ==> routing::down(pieces, order[i]) == Ok::<Names, RoutingFailure>(#[trigger] list[i]),
    decreases k,
{
    if k > 0 {
        lemma_down_at(pieces, order, (k - 1) as nat);
        if let Ok(list) = routing::all_down(pieces, order, k) {
            let earlier = routing::all_down(pieces, order, (k - 1) as nat)->Ok_0;
            assert forall|i: int| 0 <= i < k implies routing::down(pieces, order[i]) == Ok::<Names, RoutingFailure>(
                #[trigger] list[i],
            ) by {
                if i < k - 1 {
                    assert(list[i] == earlier[i]);
                }
            }
        }
    }
}

/// Every family of a routing is one of the basis.
pub open spec fn families_listed(witness: RoutingWitness, basis: RouterInterfaceBasis) -> bool {
    &&& forall|i: int|
        0 <= i < witness.horizontal_families@.len() ==> interfaces::across_labels(basis.horizontal@).contains(
            #[trigger] interfaces::across_labels(witness.horizontal_families@)[i],
        )
    &&& forall|i: int|
        0 <= i < witness.vertical_families@.len() ==> interfaces::down_labels(basis.vertical@).contains(
            #[trigger] interfaces::down_labels(witness.vertical_families@)[i],
        )
}

/// The basis covers every routing: whatever nets are routed, each family of interfaces of
/// the routing is one of the basis, if no two instances stand at the same place.
pub proof fn law_basis_covers_routing(
    c: ConstructionModel,
    files: &PatternFiles,
    witness: RoutingWitness,
    basis: RouterInterfaceBasis,
)
    requires
        routing::sources_known(c),
        instances_apart(c),
        routing::is_routing_result(c, files, Ok(witness)),
        interfaces::is_basis_result(files, Ok(basis)),
    ensures
        families_listed(witness, basis),
{
    let cells = routing::routed(c, c.nets.len())->Ok_0;
    let fixed = routing::instance_pieces(c, c.instances.len())->Ok_0;
    let pieces = routing::all_pieces(cells, fixed);
    let wide = cellmap::ordered(routing::seam(c, cells, RouteDir::E));
    let high = cellmap::ordered(routing::seam(c, cells, RouteDir::S));
    let across = routing::all_across(files, pieces, wide, wide.len())->Ok_0;
    let down = routing::all_down(pieces, high, high.len())->Ok_0;
    let tiles = interfaces::profiles_of(files, interfaces::routing_names(), interfaces::routing_names().len())->Ok_0;
    let macros = interfaces::profiles_of(files, interfaces::macro_names(), interfaces::macro_names().len())->Ok_0;
    let pairs = interfaces::basis_pairs(tiles, macros, tiles[0]);
    let listed = interfaces::connected_pairs(pairs, pairs.len())->Ok_0;
    lemma_routed(c, c.nets.len());
    lemma_across_at(files, pieces, wide, wide.len());
    lemma_down_at(pieces, high, high.len());
    assert(routing::is_witness(c, cells, pieces, across, down, witness));
    let own_across = interfaces::across_labels(witness.horizontal_families@);
    let own_down = interfaces::down_labels(witness.vertical_families@);
    assert forall|i: int| 0 <= i < witness.horizontal_families@.len() implies interfaces::across_labels(
        basis.horizontal@,
    ).contains(#[trigger] own_across[i]) by {
        let names = routing::horizontal_family_names(witness.horizontal_families@[i]);
        tally::lemma_occurs(across, names);
        let k = choose|k: int| 0 <= k < across.len() && across[k] == names;
        assert(wide.contains(wide[k]));
        lemma_across_listed(c, files, cells, fixed, wide[k], tiles, macros, listed);
        assert(listed.contains(names));
        let j = choose|j: int|
            0 <= j < basis.horizontal@.len() && routing::horizontal_family_names(#[trigger] basis.horizontal@[j])
                == names;
        assert(interfaces::across_labels(basis.horizontal@)[j] == own_across[i]);
    }
    assert forall|i: int| 0 <= i < witness.vertical_families@.len() implies interfaces::down_labels(
        basis.vertical@,
    ).contains(#[trigger] own_down[i]) by {
        let names = routing::vertical_family_names(witness.vertical_families@[i]);
        tally::lemma_occurs(down, names);
        let k = choose|k: int| 0 <= k < down.len() && down[k] == names;
        assert(high.contains(high[k]));
        lemma_down_listed(c, files, cells, fixed, high[k], tiles, macros);
        assert(interfaces::basis_stacks(tiles, macros, tiles[1]).contains(names));
        let j = choose|j: int|
            0 <= j < basis.vertical@.len() && routing::vertical_family_names(#[trigger] basis.vertical@[j]) == names;
        assert(interfaces::down_labels(basis.vertical@)[j] == own_down[i]);
    }
}

/// A certificate that covers the basis covers every routing.
pub proof fn law_certificate_covers_routing(
    c: ConstructionModel,
    files: &PatternFiles,
    witness: RoutingWitness,
    basis: RouterInterfaceBasis,
    certificate: InterfaceBasisCertificate,
)
    requires
        routing::sources_known(c),
        instances_apart(c),
        routing::is_routing_result(c, files, Ok(witness)),
        interfaces::is_basis_result(files, Ok(basis)),
        certificate.covers(
            interfaces::across_labels(basis.horizontal@),
            interfaces::down_labels(basis.vertical@),
        ),
    ensures
        certificate.covers(
            interfaces::across_labels(witness.horizontal_families@),
            interfaces::down_labels(witness.vertical_families@),
        ),
{
    law_basis_covers_routing(c, files, witness, basis);
    let across = interfaces::across_labels(basis.horizontal@);
    let down = interfaces::down_labels(basis.vertical@);
    let own_across = interfaces::across_labels(witness.horizontal_families@);
    let own_down = interfaces::down_labels(witness.vertical_families@);
    assert forall|i: int| 0 <= i < own_across.len() implies interfaces::entry_labels(
        certificate.horizontal@,
    ).contains(#[trigger] own_across[i]) by {
        assert(across.contains(own_across[i]));
        let j = choose|j: int| 0 <= j < across.len() && across[j] == own_across[i];
        assert(interfaces::entry_labels(certificate.horizontal@).contains(across[j]));
    }
    assert forall|i: int| 0 <= i < own_down.len() implies interfaces::entry_labels(
        certificate.vertical@,
    ).contains(#[trigger] own_down[i]) by {
        assert(down.contains(own_down[i]));
        let j = choose|j: int| 0 <= j < down.len() && down[j] == own_down[i];
        assert(interfaces::entry_labels(certificate.vertical@).contains(down[j]));
    }
}
/// With a certificate that covers the basis, the certificate of a construction has no
/// obligation left.
pub proof fn law_no_obligation_remains(
    c: ConstructionModel,
    files: &PatternFiles,
    certificate: ConstructionCertificate,
    basis: &InterfaceBasisCertificate,
    router: RouterInterfaceBasis,
    result: Result<ConstructionCertificate, BasisError>,
)
    requires
        routing::sources_known(c),
        instances_apart(c),
        certificate::is_certificate_result(c, files, Ok(certificate)),
        certificate.dead_boundary_padding_certificate.summable(),
        interfaces::is_basis_result(files, Ok(router)),
        basis.covers(interfaces::across_labels(router.horizontal@), interfaces::down_labels(router.vertical@)),
        certificate.is_attached(basis, Ok(router), result),
    ensures
        result matches Ok(after) && after.interface_basis_complete && after.remaining_obligations@.len() == 0,
{
    let routed = choose|routed: Result<RoutingWitness, RoutingError>| #[trigger]
        routing::is_routing_result(c, files, routed) && certificate::is_certified(c, files, routed, Ok(certificate));
    let witness = routed->Ok_0;
    law_certificate_covers_routing(c, files, witness, router, *basis);
    let size = padding::dimension_bounds(files)->Ok_0;
    padding::law_padding_complete(
        certificate.dead_boundary_padding_certificate,
        routing::extent(witness.bounds.min_x as int, witness.bounds.max_x as int),
        routing::extent(witness.bounds.min_y as int, witness.bounds.max_y as int),
        size,
    );
    assert(certificate::name_texts(result->Ok_0.remaining_obligations@).len() == 0);
}

/// A certificate of interfaces is attached to the certificate of a construction exactly when the
/// interfaces of the router can be enumerated, and it holds an entry for each of them and for each
/// interface of the construction. It then completes the basis, leaves no obligation, and leaves
/// everything else as it was.
pub proof fn law_attached_when_covering(
    c: ConstructionModel,
    files: &PatternFiles,
    certificate: ConstructionCertificate,
    basis: &InterfaceBasisCertificate,
    found: Result<RouterInterfaceBasis, BasisError>,
    result: Result<ConstructionCertificate, BasisError>,
)
    requires
        certificate::is_certificate_result(c, files, Ok(certificate)),
        certificate.dead_boundary_padding_certificate.summable(),
        certificate.is_attached(basis, found, result),
    ensures
        result is Ok <==> (found matches Ok(router) && {
            &&& basis.covers(interfaces::across_labels(router.horizontal@), interfaces::down_labels(router.vertical@))
            &&& basis.covers(
                interfaces::across_labels(certificate.routing_witness.horizontal_families@),
                interfaces::down_labels(certificate.routing_witness.vertical_families@),
            )
        }),
        result matches Ok(after) ==> {
            &&& after.interface_basis_complete
            &&& after.remaining_obligations@.len() == 0
            &&& after == (ConstructionCertificate {
                interface_basis_complete: true,
                remaining_obligations: after.remaining_obligations,
                ..certificate
            })
        },
{
    let routed = choose|routed: Result<RoutingWitness, RoutingError>| #[trigger]
        routing::is_routing_result(c, files, routed) && certificate::is_certified(c, files, routed, Ok(certificate));
    let witness = routed->Ok_0;
    let size = padding::dimension_bounds(files)->Ok_0;
    padding::law_padding_complete(
        certificate.dead_boundary_padding_certificate,
        routing::extent(witness.bounds.min_x as int, witness.bounds.max_x as int),
        routing::extent(witness.bounds.min_y as int, witness.bounds.max_y as int),
        size,
    );
    if let Ok(after) = result {
        assert(certificate::name_texts(after.remaining_obligations@).len() == 0);
    }
}

} // verus!
