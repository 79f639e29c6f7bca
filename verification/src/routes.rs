//! What the cells of a routing have to do with the paths of its nets.

use crate::cellmap;
use crate::cellmap::Place;
use crate::compiler::{ConstructionModel, EndpointModel};
use crate::lanes;
use crate::layout;
use crate::published::PatternFiles;
use crate::routing;
use crate::routing::{RouteCells, RouteDir, RouteDirs, RoutingError, RoutingFailure, RoutingWitness};
use crate::tally;
use vstd::prelude::*;

verus! {

/// Where a path comes from: the place of the instance that drives it, or for an input the place in
/// the east of its first cell.
pub open spec fn behind(c: ConstructionModel, net: int) -> Place {
    match c.nets[net].from {
        EndpointModel::Port(id, _) => lanes::position(c, id),
        EndpointModel::External(_) => lanes::moved(routing::net_path(c, net as nat)[0], RouteDir::E),
    }
}

/// Where a path leads to: the place of the instance that it drives.
pub open spec fn beyond(c: ConstructionModel, net: int) -> Place {
    lanes::position(c, c.nets[net].to->Port_0)
}

/// At a step of its path, a net goes on to a neighbour or comes from it.
pub open spec fn turns_to(c: ConstructionModel, net: int, i: int, dir: RouteDir) -> bool {
    let way = routing::net_path(c, net as nat);
    let next = lanes::moved(way[i], dir);
    ||| i + 1 < way.len() && way[i + 1] == next
    ||| i > 0 && way[i - 1] == next
    ||| i == 0 && next == behind(c, net)
    ||| i + 1 == way.len() && next == beyond(c, net)
}

/// Some net goes from a place to its neighbour, or comes from there.
pub open spec fn is_used(c: ConstructionModel, k: nat, p: Place, dir: RouteDir) -> bool {
    exists|net: int, i: int|
        0 <= net < k && 0 <= i < routing::net_path(c, net as nat).len() && routing::net_path(c, net as nat)[i] == p
            && #[trigger] turns_to(c, net, i, dir)
}

/// Some net passes through a place.
pub open spec fn is_passed(c: ConstructionModel, k: nat, p: Place) -> bool {
    exists|net: int, i: int|
        0 <= net < k && 0 <= i < routing::net_path(c, net as nat).len() && #[trigger] routing::net_path(c, net as nat)[i]
            == p
}

/// One routing has all the ways of another.
spec fn grows(before: RouteCells, after: RouteCells) -> bool {
    forall|p: Place| #[trigger]
        before.contains_key(p) ==> after.contains_key(p) && forall|dir: RouteDir|
            routing::leads(before[p], dir) ==> #[trigger] routing::leads(after[p], dir)
}

proof fn lemma_placed(cells: RouteCells, place: Place, dirs: RouteDirs, net: nat)
    requires
        routing::placed(cells, place, dirs, net) is Ok,
    ensures
        ({
            let after = routing::placed(cells, place, dirs, net)->Ok_0;
            &&& grows(cells, after)
            &&& after.contains_key(place)
            &&& forall|dir: RouteDir| routing::leads(dirs, dir) ==> #[trigger] routing::leads(after[place], dir)
            &&& forall|p: Place| #[trigger] after.contains_key(p) ==> p == place || cells.contains_key(p)
            &&& forall|p: Place, dir: RouteDir| #![trigger routing::leads(after[p], dir)]
                after.contains_key(p) && routing::leads(after[p], dir) ==> (p == place && routing::leads(dirs, dir)) || (
                cells.contains_key(p) && routing::leads(cells[p], dir))
        }),
{
}

proof fn lemma_laid(
    cells: RouteCells,
    path: Seq<Place>,
    source: RouteDir,
    target: RouteDir,
    net: nat,
    k: nat,
)
    requires
        routing::laid(cells, path, source, target, net, k) is Ok,
        k <= path.len(),
    ensures
        ({
            let after = routing::laid(cells, path, source, target, net, k)->Ok_0;
            &&& grows(cells, after)
            &&& forall|i: int|
                0 <= i < k ==> after.contains_key(#[trigger] path[i]) && forall|dir: RouteDir|
                    routing::leads(routing::cell_dirs(path, i, source, target), dir) ==> #[trigger] routing::leads(
                        after[path[i]],
                        dir,
                    )
            &&& forall|p: Place| #[trigger]
                after.contains_key(p) ==> cells.contains_key(p) || exists|i: int| 0 <= i < k && #[trigger] path[i] == p
            &&& forall|p: Place, dir: RouteDir| #![trigger routing::leads(after[p], dir)]
                after.contains_key(p) && routing::leads(after[p], dir) ==> (cells.contains_key(p) && routing::leads(
                    cells[p],
                    dir,
                )) || exists|i: int|
                    0 <= i < k && #[trigger] path[i] == p && routing::leads(
                        routing::cell_dirs(path, i, source, target),
                        dir,
                    )
        }),
    decreases k,
{
    if k > 0 {
        lemma_laid(cells, path, source, target, net, (k - 1) as nat);
        let before = routing::laid(cells, path, source, target, net, (k - 1) as nat)->Ok_0;
        let dirs = routing::cell_dirs(path, k - 1, source, target);
        lemma_placed(before, path[k - 1], dirs, net);
        let after = routing::laid(cells, path, source, target, net, k)->Ok_0;
        assert forall|p: Place, dir: RouteDir| #![trigger routing::leads(after[p], dir)]
            after.contains_key(p) && routing::leads(after[p], dir) implies (cells.contains_key(p) && routing::leads(
            cells[p],
            dir,
        )) || exists|i: int|
            0 <= i < k && #[trigger] path[i] == p && routing::leads(routing::cell_dirs(path, i, source, target), dir) by {
            if !(p == path[k - 1] && routing::leads(dirs, dir)) {
                assert(routing::leads(before[p], dir));
            }
        }
    }
}

proof fn lemma_ways(c: ConstructionModel, net: int, i: int, dir: RouteDir)
    requires
        0 <= net < c.nets.len(),
        lanes::stub_of(c, c.nets[net].to) is Ok,
        lanes::source_of(c, net as nat) is Ok,
        0 <= i < routing::net_path(c, net as nat).len(),
    ensures
        ({
            let way = routing::net_path(c, net as nat);
            let source = lanes::source_of(c, net as nat)->Ok_0;
            let target = lanes::stub_of(c, c.nets[net].to)->Ok_0;
            routing::leads(routing::cell_dirs(way, i, source.back, target.back), dir) == turns_to(c, net, i, dir)
        }),
{
    let way = routing::net_path(c, net as nat);
    let source = lanes::source_of(c, net as nat)->Ok_0;
    let target = lanes::stub_of(c, c.nets[net].to)->Ok_0;
    lanes::lemma_path(c, net as nat, source, target);
    let p = way[i];
    if i > 0 {
        assert(lanes::adjacent(way[i - 1], way[i]));
    }
    if i + 1 < way.len() {
        assert(lanes::adjacent(way[i], way[i + 1]));
    }
    assert(lanes::moved(target.place, target.back) == beyond(c, net));
    assert(lanes::moved(source.place, source.back) == behind(c, net));
    assert forall|a: RouteDir, b: RouteDir| lanes::moved(p, a) == lanes::moved(p, b) implies a == b by {}
}

proof fn lemma_routed(c: ConstructionModel, k: nat)
    requires
        k <= c.nets.len(),
        routing::routed(c, k) is Ok,
    ensures
        ({
            let cells = routing::routed(c, k)->Ok_0;
            &&& forall|p: Place| #[trigger] cells.contains_key(p) == is_passed(c, k, p)
            &&& forall|p: Place, dir: RouteDir| #![trigger routing::leads(cells[p], dir)]
                cells.contains_key(p) ==> routing::leads(cells[p], dir) == is_used(c, k, p, dir)
        }),
    decreases k,
{
    let cells = routing::routed(c, k)->Ok_0;
    if k > 0 {
        let net = k - 1;
        lemma_routed(c, net as nat);
        let before = routing::routed(c, net as nat)->Ok_0;
        let source = lanes::source_of(c, net as nat)->Ok_0;
        let target = lanes::stub_of(c, c.nets[net].to)->Ok_0;
        let way = routing::net_path(c, net as nat);
        lemma_laid(before, way, source.back, target.back, net as nat, way.len());
        assert forall|p: Place| #[trigger] cells.contains_key(p) == is_passed(c, k, p) by {
            if is_passed(c, net as nat, p) {
                assert(before.contains_key(p));
                let (n, i) = choose|n: int, i: int|
                    0 <= n < net && 0 <= i < routing::net_path(c, n as nat).len() && #[trigger] routing::net_path(
                        c,
                        n as nat,
                    )[i] == p;
                assert(routing::net_path(c, n as nat)[i] == p);
            }
            if cells.contains_key(p) && !before.contains_key(p) {
                let i = choose|i: int| 0 <= i < way.len() && #[trigger] way[i] == p;
                assert(routing::net_path(c, net as nat)[i] == p);
            }
            if is_passed(c, k, p) {
                let (n, i) = choose|n: int, i: int|
                    0 <= n < k && 0 <= i < routing::net_path(c, n as nat).len() && #[trigger] routing::net_path(
                        c,
                        n as nat,
                    )[i] == p;
                if n == net {
                    assert(cells.contains_key(way[i]));
                } else {
                    assert(is_passed(c, net as nat, p));
                    assert(before.contains_key(p));
                }
            }
        }
        assert forall|p: Place, dir: RouteDir| #![trigger routing::leads(cells[p], dir)]
            cells.contains_key(p) implies routing::leads(cells[p], dir) == is_used(c, k, p, dir) by {
            lemma_used(c, net as nat, p, dir);
        }
    }
}

proof fn lemma_used(c: ConstructionModel, net: nat, p: Place, dir: RouteDir)
    requires
        net < c.nets.len(),
        routing::routed(c, net + 1) is Ok,
        routing::routed(c, net + 1)->Ok_0.contains_key(p),
        ({
            let cells = routing::routed(c, net)->Ok_0;
            &&& forall|q: Place| #[trigger] cells.contains_key(q) == is_passed(c, net, q)
            &&& forall|q: Place, d: RouteDir| #![trigger routing::leads(cells[q], d)]
                cells.contains_key(q) ==> routing::leads(cells[q], d) == is_used(c, net, q, d)
        }),
    ensures
        routing::leads(routing::routed(c, net + 1)->Ok_0[p], dir) == is_used(c, net + 1, p, dir),
{
    let cells = routing::routed(c, net + 1)->Ok_0;
    let before = routing::routed(c, net)->Ok_0;
    let source = lanes::source_of(c, net)->Ok_0;
    let target = lanes::stub_of(c, c.nets[net as int].to)->Ok_0;
    let way = routing::net_path(c, net);
    lemma_laid(before, way, source.back, target.back, net, way.len());
    if routing::leads(cells[p], dir) {
        if before.contains_key(p) && routing::leads(before[p], dir) {
            assert(is_used(c, net, p, dir));
            let (n, i) = choose|n: int, i: int|
                0 <= n < net && 0 <= i < routing::net_path(c, n as nat).len() && routing::net_path(c, n as nat)[i] == p
                    && #[trigger] turns_to(c, n, i, dir);
            assert(turns_to(c, n, i, dir));
        } else {
            let i = choose|i: int|
                0 <= i < way.len() && #[trigger] way[i] == p && routing::leads(
                    routing::cell_dirs(way, i, source.back, target.back),
                    dir,
                );
            lemma_ways(c, net as int, i, dir);
            assert(turns_to(c, net as int, i, dir));
        }
    }
    if is_used(c, net + 1, p, dir) {
        let (n, i) = choose|n: int, i: int|
            0 <= n < net + 1 && 0 <= i < routing::net_path(c, n as nat).len() && routing::net_path(c, n as nat)[i] == p
                && #[trigger] turns_to(c, n, i, dir);
        if n == net {
            lemma_ways(c, n, i, dir);
            assert(cells.contains_key(way[i]));
        } else {
            assert(is_passed(c, net, p)) by {
                assert(routing::net_path(c, n as nat)[i] == p);
            }
            assert(before.contains_key(p));
            assert(is_used(c, net, p, dir));
            assert(routing::leads(before[p], dir));
        }
    }
}

/// The cells of a routing are those through which its paths pass, and a cell leads to a neighbour if
/// and only if some path goes from the one to the other, or begins or ends there.
pub proof fn law_cells_are_those_of_paths(c: ConstructionModel, cells: RouteCells)
    requires
        routing::routed(c, c.nets.len()) == Ok::<RouteCells, RoutingFailure>(cells),
    ensures
        forall|p: Place| #[trigger] cells.contains_key(p) == is_passed(c, c.nets.len(), p),
        forall|p: Place, dir: RouteDir| #![trigger routing::leads(cells[p], dir)]
            cells.contains_key(p) ==> routing::leads(cells[p], dir) == is_used(c, c.nets.len(), p, dir),
{
    lemma_routed(c, c.nets.len());
    let all = routing::routed(c, c.nets.len())->Ok_0;
    assert(all == cells);
    assert forall|p: Place| #[trigger] cells.contains_key(p) == is_passed(c, c.nets.len(), p) by {
        assert(all.contains_key(p) == is_passed(c, c.nets.len(), p));
    }
    assert forall|p: Place, dir: RouteDir| #![trigger routing::leads(cells[p], dir)]
        cells.contains_key(p) implies routing::leads(cells[p], dir) == is_used(c, c.nets.len(), p, dir) by {
        assert(routing::leads(all[p], dir) == is_used(c, c.nets.len(), p, dir));
    }
}

/// The path of a net begins beside the instance that drives it and ends beside the one that it
/// drives, each on the side of the port that it is joined to.
pub proof fn law_paths_end_at_ports(c: ConstructionModel, files: &PatternFiles, witness: RoutingWitness, net: int)
    requires
        routing::is_routing_result(c, files, Ok::<RoutingWitness, RoutingError>(witness)),
        0 <= net < c.nets.len(),
    ensures
        ({
            let cells = witness.net_paths@[net].cells@;
            let (first, last) = (cellmap::place_of(cells[0]), cellmap::place_of(cells[cells.len() - 1]));
            &&& witness.net_paths@.len() == c.nets.len()
            &&& cells.len() > 0
            &&& c.nets[net].to matches EndpointModel::Port(id, port) && lanes::kind_of(c, id) matches Some(kind)
                && routing::port_dir(kind, port) matches Ok(dir) && last == lanes::moved(lanes::position(c, id), dir)
            &&& c.nets[net].from matches EndpointModel::Port(id, port) ==> (lanes::kind_of(c, id) matches Some(kind)
                && routing::port_dir(kind, port) matches Ok(dir) && first == lanes::moved(lanes::position(c, id), dir))
            &&& witness.net_paths@[net].from@ == c.nets[net].from
            &&& EndpointModel::Port(witness.net_paths@[net].to@.0, witness.net_paths@[net].to@.1) == c.nets[net].to
        }),
{
    let cells = routing::routed(c, c.nets.len())->Ok_0;
    layout::lemma_ends_routed(c, net as nat, c.nets.len());
    let path = witness.net_paths@[net];
    assert(routing::is_path_witness(c, cells, net, path));
    let source = lanes::source_of(c, net as nat)->Ok_0;
    let target = lanes::stub_of(c, c.nets[net].to)->Ok_0;
    lanes::lemma_path(c, net as nat, source, target);
    let way = lanes::places(path.cells@);
    assert(way[0] == cellmap::place_of(path.cells@[0]));
    assert(way[way.len() - 1] == cellmap::place_of(path.cells@[path.cells@.len() - 1]));
}

/// A path changes its direction at a step.
pub open spec fn bends(path: Seq<Place>, i: int) -> bool {
    path[i + 1].0 - path[i].0 != path[i].0 - path[i - 1].0 || path[i + 1].1 - path[i].1 != path[i].1 - path[i - 1].1
}

proof fn lemma_turns(path: Seq<Place>, k: nat)
    requires
        lanes::is_walk(path),
        k <= path.len(),
    ensures
        Set::new(|i: int| 0 < i < k - 1 && bends(path, i)).finite(),
        routing::turn_count(path, k) == Set::new(|i: int| 0 < i < k - 1 && bends(path, i)).len(),
    decreases k,
{
    let all = Set::new(|i: int| 0 < i < k - 1 && bends(path, i));
    if k < 3 {
        assert(all =~= Set::empty());
    } else {
        lemma_turns(path, (k - 1) as nat);
        let less = Set::new(|i: int| 0 < i < k - 2 && bends(path, i));
        assert(lanes::adjacent(path[k - 3], path[k - 2]));
        assert(lanes::adjacent(path[k - 2], path[k - 1]));
        assert(bends(path, k - 2) == (lanes::heading(path[k - 3], path[k - 2]) != lanes::heading(
            path[k - 2],
            path[k - 1],
        )));
        if bends(path, k - 2) {
            assert(all =~= less.insert(k - 2));
        } else {
            assert(all =~= less);
        }
    }
}

proof fn lemma_crossings(cells: RouteCells, path: Seq<Place>, k: nat)
    requires
        k <= path.len(),
    ensures
        Set::new(|i: int| 0 <= i < k && is_crossing(cells, path[i])).finite(),
        routing::crossing_count(cells, path, k) == Set::new(|i: int| 0 <= i < k && is_crossing(cells, path[i])).len(),
    decreases k,
{
    let all = Set::new(|i: int| 0 <= i < k && is_crossing(cells, path[i]));
    if k == 0 {
        assert(all =~= Set::empty());
    } else {
        lemma_crossings(cells, path, (k - 1) as nat);
        let less = Set::new(|i: int| 0 <= i < k - 1 && is_crossing(cells, path[i]));
        let last = path[k - 1];
        if cells.contains_key(last) {
            let d = cells[last];
            assert(routing::leads(d, RouteDir::N) == d.n && routing::leads(d, RouteDir::E) == d.e && routing::leads(
                d,
                RouteDir::S,
            ) == d.s && routing::leads(d, RouteDir::W) == d.w);
        }
        if is_crossing(cells, last) {
            assert(all =~= less.insert(k - 1));
        } else {
            assert(all =~= less);
        }
    }
}

/// A cell leads to all its neighbours.
pub open spec fn is_crossing(cells: RouteCells, p: Place) -> bool {
    cells.contains_key(p) && forall|dir: RouteDir| #[trigger] routing::leads(cells[p], dir)
}

/// The turns of a path are the steps at which it changes its direction, and its crossings are the
/// steps at cells that lead to all four neighbours.
pub proof fn law_turns_and_crossings(c: ConstructionModel, files: &PatternFiles, witness: RoutingWitness, net: int)
    requires
        routing::is_routing_result(c, files, Ok::<RoutingWitness, RoutingError>(witness)),
        0 <= net < c.nets.len(),
    ensures
        ({
            let cells = routing::routed(c, c.nets.len())->Ok_0;
            let path = lanes::places(witness.net_paths@[net].cells@);
            &&& routing::routed(c, c.nets.len()) is Ok
            &&& witness.net_paths@[net].turns == Set::new(|i: int| 0 < i < path.len() - 1 && bends(path, i)).len()
            &&& witness.net_paths@[net].crossings == Set::new(
                |i: int| 0 <= i < path.len() && is_crossing(cells, path[i]),
            ).len()
        }),
{
    let cells = routing::routed(c, c.nets.len())->Ok_0;
    let path = lanes::places(witness.net_paths@[net].cells@);
    assert(routing::is_path_witness(c, cells, net, witness.net_paths@[net]));
    lanes::lemma_path(
        c,
        net as nat,
        lanes::source_of(c, net as nat)->Ok_0,
        lanes::stub_of(c, c.nets[net].to)->Ok_0,
    );
    lemma_turns(path, path.len());
    lemma_crossings(cells, path, path.len());
}

/// The places of a list that hold a value.
pub open spec fn held_at<T>(list: Seq<T>, value: T) -> Set<int> {
    Set::new(|i: int| 0 <= i < list.len() && list[i] == value)
}

/// A value occurs in a list as often as there are places in it that hold the value.
pub proof fn law_occurrences<T>(list: Seq<T>, value: T)
    ensures
        held_at(list, value).finite(),
        tally::occurrences(list, value) == held_at(list, value).len(),
    decreases list.len(),
{
    let all = held_at(list, value);
    if list.len() == 0 {
        assert(all =~= Set::empty());
    } else {
        let rest = list.drop_last();
        law_occurrences(rest, value);
        let less = held_at(rest, value);
        let n = list.len() - 1;
        if list.last() == value {
            assert(all =~= less.insert(n));
        } else {
            assert(all =~= less);
        }
    }
}

proof fn lemma_position(c: ConstructionModel, k: nat, i: int)
    requires
        0 <= i < k <= c.instances.len(),
        forall|a: int, b: int| #![trigger c.instances[a], c.instances[b]]
            0 <= a < b < c.instances.len() ==> c.instances[a].id != c.instances[b].id,
    ensures
        lanes::position_among(c, k, c.instances[i].id) == lanes::centre(
            c,
            c.instances[i].column,
            c.instances[i].row,
        ),
    decreases k,
{
    if i < k - 1 {
        assert(c.instances[i].id != c.instances[k - 1].id);
        lemma_position(c, (k - 1) as nat, i);
    }
}

proof fn lemma_spaced(a: nat, b: nat, pitch: int, least: int)
    requires
        pitch >= least,
        least > 0,
    ensures
        a < b ==> a * pitch + least <= b * pitch,
        a == b ==> a * pitch == b * pitch,
{
    if a < b {
        assert(a * pitch + pitch <= b * pitch) by (nonlinear_arith)
            requires
                a + 1 <= b,
                pitch > 0,
        ;
    }
}

/// The instances stand as their columns and rows say: one in a later column farther east, one in a
/// later row farther south, with room between them for a lane of every net; and the inputs
/// begin west of all of them.
pub proof fn law_positions_follow_columns(c: ConstructionModel, i: int, j: int, net: nat, variable: Seq<char>)
    requires
        0 <= i < c.instances.len(),
        0 <= j < c.instances.len(),
        forall|a: int, b: int| #![trigger c.instances[a], c.instances[b]]
            0 <= a < b < c.instances.len() ==> c.instances[a].id != c.instances[b].id,
    ensures
        ({
            let (a, b) = (c.instances[i], c.instances[j]);
            let (p, q) = (lanes::position(c, a.id), lanes::position(c, b.id));
            &&& a.column < b.column <==> p.0 < q.0
            &&& a.row < b.row <==> p.1 < q.1
            &&& a.column < b.column ==> p.0 + 12 * c.nets.len() < q.0
            &&& a.row < b.row ==> p.1 + 12 * c.nets.len() < q.1
            &&& lanes::input_stub(c, net, variable).place.0 < 0 < p.0
            &&& p.1 > 0
        }),
{
    let (a, b) = (c.instances[i], c.instances[j]);
    lemma_position(c, c.instances.len(), i);
    lemma_position(c, c.instances.len(), j);
    let (x, y) = (lanes::pitch_x(c), lanes::pitch_y(c));
    lemma_spaced(a.column, b.column, x, x);
    lemma_spaced(b.column, a.column, x, x);
    lemma_spaced(a.row, b.row, y, y);
    lemma_spaced(b.row, a.row, y, y);
    lemma_spaced(0, a.column, x, x);
    lemma_spaced(0, a.row, y, y);
    assert(0 * x == 0 && 0 * y == 0) by (nonlinear_arith);
}

/// The inputs begin in the order of their variables, from north to south, and those of different nets
/// in different columns.
pub proof fn law_inputs_begin_apart(c: ConstructionModel, m: nat, n: nat, a: Seq<char>, b: Seq<char>)
    requires
        c.variables.contains(a),
        c.variables.contains(b),
    ensures
        ({
            let (p, q) = (lanes::input_stub(c, m, a).place, lanes::input_stub(c, n, b).place);
            &&& m != n ==> p.0 != q.0
            &&& c.variables.index_of(a) < c.variables.index_of(b) <==> p.1 < q.1
            &&& c.variables.index_of(a) < c.variables.index_of(b) ==> p.1 + 12 * c.nets.len() < q.1
        }),
{
    let y = lanes::pitch_y(c);
    let (i, j) = (c.variables.index_of(a), c.variables.index_of(b));
    lemma_spaced(i as nat, j as nat, y, y);
    lemma_spaced(j as nat, i as nat, y, y);
}

} // verus!
