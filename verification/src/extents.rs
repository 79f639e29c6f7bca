//! The size of routings: the paths are no longer than a polynomial in the number of columns,
//! rows and nets.

use crate::cellmap::Place;
use crate::compiler::{ConstructionModel, EndpointModel};
use crate::lanes;
use crate::lanes::StubModel;
use crate::published::PatternFiles;
use crate::routing;
use crate::routing::RoutingWitness;
use vstd::prelude::*;

verus! {

/// The instances stand in so many columns and rows, and so many rows hold the inputs.
pub open spec fn spans(c: ConstructionModel, columns: nat, rows: nat) -> bool {
    &&& c.variables.len() <= rows
    &&& forall|i: int|
        0 <= i < c.instances.len() ==> (#[trigger] c.instances[i]).column < columns && c.instances[i].row < rows
}

/// How far the lanes reach, from west to east.
pub open spec fn span_x(c: ConstructionModel, columns: nat) -> int {
    columns * lanes::pitch_x(c) + lanes::reach(c)
}

/// How far the lanes reach, from north to south.
pub open spec fn span_y(c: ConstructionModel, rows: nat) -> int {
    rows * lanes::pitch_y(c) + lanes::reach(c)
}

/// A number of cells that no path exceeds.
pub open spec fn path_bound(c: ConstructionModel, columns: nat, rows: nat) -> int {
    1 + 18 * (span_x(c, columns) + span_y(c, rows))
}

/// The place lies within the reach of the lanes.
pub open spec fn within(c: ConstructionModel, columns: nat, rows: nat, place: Place) -> bool {
    &&& -span_x(c, columns) <= place.0 <= span_x(c, columns)
    &&& -span_y(c, rows) <= place.1 <= span_y(c, rows)
}

/// The place lies where instances, or inputs, stand.
pub open spec fn at_home(c: ConstructionModel, columns: nat, rows: nat, place: Place) -> bool {
    &&& 0 <= place.0 <= columns * lanes::pitch_x(c)
    &&& 0 <= place.1 <= rows * lanes::pitch_y(c)
}

/// A position before the end of a grid lies before the end of the grid's places.
proof fn lemma_before(i: nat, n: nat, pitch: int)
    requires
        i < n,
        pitch >= 0,
    ensures
        0 <= i * pitch + pitch / 2 <= n * pitch,
{
    assert(0 <= i * pitch && (i + 1) * pitch <= n * pitch && (i + 1) * pitch == i * pitch + pitch) by (nonlinear_arith)
        requires
            i < n,
            pitch >= 0,
    ;
}

proof fn lemma_home(c: ConstructionModel, columns: nat, rows: nat, k: nat, id: nat)
    requires
        spans(c, columns, rows),
        k <= c.instances.len(),
    ensures
        at_home(c, columns, rows, lanes::position_among(c, k, id)),
    decreases k,
{
    assert(columns * lanes::pitch_x(c) >= 0 && rows * lanes::pitch_y(c) >= 0) by (nonlinear_arith)
        requires
            lanes::pitch_x(c) >= 0,
            lanes::pitch_y(c) >= 0,
    ;
    if k > 0 {
        let instance = c.instances[k - 1];
        lemma_before(instance.column, columns, lanes::pitch_x(c));
        lemma_before(instance.row, rows, lanes::pitch_y(c));
        lemma_home(c, columns, rows, (k - 1) as nat, id);
    }
}

/// The path starts, or ends, beside an instance or at an input.
pub open spec fn based(c: ConstructionModel, columns: nat, rows: nat, stub: StubModel, net: nat) -> bool {
    ||| at_home(c, columns, rows, lanes::moved(stub.place, stub.back))
    ||| stub.back == routing::RouteDir::E && stub.place.0 == -9 - net * 6 && 0 <= stub.place.1 <= rows
        * lanes::pitch_y(c)
}

/// The places lie within the reach of the lanes.
pub open spec fn all_within(c: ConstructionModel, columns: nat, rows: nat, points: Seq<Place>) -> bool {
    forall|k: int| 0 <= k < points.len() ==> within(c, columns, rows, #[trigger] points[k])
}

proof fn lemma_corners_within(
    c: ConstructionModel,
    columns: nat,
    rows: nat,
    net: nat,
    source: StubModel,
    target: StubModel,
)
    requires
        spans(c, columns, rows),
        net < c.nets.len(),
        based(c, columns, rows, source, net),
        based(c, columns, rows, target, net),
    ensures
        lanes::corners(c, net, source, target).len() == 10,
        all_within(c, columns, rows, lanes::corners(c, net, source, target)),
{
    let wide = columns * lanes::pitch_x(c);
    let high = rows * lanes::pitch_y(c);
    assert(wide >= 0 && high >= 0) by (nonlinear_arith)
        requires
            wide == columns * lanes::pitch_x(c),
            high == rows * lanes::pitch_y(c),
            lanes::pitch_x(c) >= 0,
            lanes::pitch_y(c) >= 0,
    ;
    let xs = lanes::columns(c);
    let ys = lanes::rows(c);
    assert forall|i: int| 0 <= i < xs.len() implies 0 <= #[trigger] xs[i] <= wide by {
        lemma_home(c, columns, rows, c.instances.len(), c.instances[i].id);
    }
    assert forall|i: int| 0 <= i < ys.len() implies 0 <= #[trigger] ys[i] <= high by {
        lemma_home(c, columns, rows, c.instances.len(), c.instances[i].id);
    }
    lanes::lemma_least(xs, 0, wide);
    lanes::lemma_least(ys, 0, high);
}

proof fn lemma_path_within(c: ConstructionModel, columns: nat, rows: nat, points: Seq<Place>, k: nat)
    requires
        k < points.len(),
        all_within(c, columns, rows, points),
    ensures
        lanes::path_through(points, k).len() <= 1 + k * (2 * (span_x(c, columns) + span_y(c, rows))),
    decreases k,
{
    let step = 2 * (span_x(c, columns) + span_y(c, rows));
    if k > 0 {
        lemma_path_within(c, columns, rows, points, (k - 1) as nat);
        assert(within(c, columns, rows, points[k - 1]) && within(c, columns, rows, points[k as int]));
        assert(k * step == (k - 1) * step + step) by (nonlinear_arith);
    }
}

/// Both ends of a net's path stand beside an instance or at an input.
proof fn lemma_based(c: ConstructionModel, columns: nat, rows: nat, net: nat)
    requires
        routing::routed(c, c.nets.len()) is Ok,
        routing::sources_known(c),
        spans(c, columns, rows),
        net < c.nets.len(),
    ensures
        based(c, columns, rows, lanes::source_of(c, net)->Ok_0, net),
        based(c, columns, rows, lanes::stub_of(c, c.nets[net as int].to)->Ok_0, net),
{
    lemma_routed_before(c, net, c.nets.len());
    let ends = c.nets[net as int];
    lemma_home(c, columns, rows, c.instances.len(), ends.to->Port_0);
    match ends.from {
        EndpointModel::External(variable) => {
            assert(c.nets[net as int].from matches EndpointModel::External(v) ==> c.variables.contains(v));
            let i = choose|i: int| 0 <= i < c.variables.len() && c.variables[i] == variable;
            assert(c.variables[i] == variable);
            let row = c.variables.index_of(variable);
            assert(0 <= row < c.variables.len());
            lemma_before(row as nat, rows, lanes::pitch_y(c));
        },
        EndpointModel::Port(id, _) => {
            lemma_home(c, columns, rows, c.instances.len(), id);
        },
    }
}

/// The path of a net is no longer than a polynomial in the number of columns, rows and nets.
pub proof fn law_path_length(
    c: ConstructionModel,
    files: &PatternFiles,
    witness: RoutingWitness,
    columns: nat,
    rows: nat,
    net: int,
)
    requires
        routing::is_routing_result(c, files, Ok(witness)),
        routing::sources_known(c),
        spans(c, columns, rows),
        0 <= net < c.nets.len(),
    ensures
        witness.net_paths@[net].cells@.len() <= path_bound(c, columns, rows),
{
    let cells = routing::routed(c, c.nets.len())->Ok_0;
    let path = witness.net_paths@[net];
    assert(routing::is_path_witness(c, cells, net, path));
    assert(lanes::places(path.cells@).len() == path.cells@.len());
    lemma_net_path(c, columns, rows, net as nat);
}

proof fn lemma_net_path(c: ConstructionModel, columns: nat, rows: nat, net: nat)
    requires
        routing::routed(c, c.nets.len()) is Ok,
        routing::sources_known(c),
        spans(c, columns, rows),
        net < c.nets.len(),
    ensures
        routing::net_path(c, net).len() <= path_bound(c, columns, rows),
{
    lemma_based(c, columns, rows, net);
    lemma_path_short(
        c,
        columns,
        rows,
        net,
        lanes::source_of(c, net)->Ok_0,
        lanes::stub_of(c, c.nets[net as int].to)->Ok_0,
    );
}

proof fn lemma_path_short(
    c: ConstructionModel,
    columns: nat,
    rows: nat,
    net: nat,
    source: StubModel,
    target: StubModel,
)
    requires
        spans(c, columns, rows),
        net < c.nets.len(),
        based(c, columns, rows, source, net),
        based(c, columns, rows, target, net),
    ensures
        lanes::path_of(c, net, source, target).len() <= path_bound(c, columns, rows),
{
    lemma_corners_within(c, columns, rows, net, source, target);
    let points = lanes::corners(c, net, source, target);
    lemma_path_within(c, columns, rows, points, 9);
    assert(lanes::path_of(c, net, source, target) == lanes::path_through(points, 9));
}

/// Where all nets are routed, the ends of each have places.
proof fn lemma_routed_before(c: ConstructionModel, net: nat, k: nat)
    requires
        net < k <= c.nets.len(),
        routing::routed(c, k) is Ok,
    ensures
        routing::routed(c, net) is Ok,
        lanes::stub_of(c, c.nets[net as int].to) is Ok,
        lanes::source_of(c, net) is Ok,
    decreases k,
{
    if net < k - 1 {
        lemma_routed_before(c, net, (k - 1) as nat);
    }
}

} // verus!
