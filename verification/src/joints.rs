//! The interfaces of a routing: what they join, and how they are counted.

use crate::cellmap;
use crate::cellmap::Place;
use crate::compiler::{ConstructionModel, EndpointModel};
use crate::lanes;
use crate::published::PatternFiles;
use crate::routes;
use crate::routing;
use crate::routing::{HorizontalInterface, RouteDir, RoutedPiece, RoutingError, RoutingWitness, VerticalInterface};
use crate::tally::Names;
use vstd::prelude::*;

verus! {

/// A list has a piece of a name at a place.
pub open spec fn stands(list: Seq<RoutedPiece>, at: (i32, i32), name: Seq<char>) -> bool {
    exists|i: int| 0 <= i < list.len() && (#[trigger] list[i]).coord == at && list[i].spec_name@ == name
}

/// An interface joins two pieces of the routing that lie side by side, by the connector that fits
/// between them.
pub open spec fn joins_across(files: &PatternFiles, list: Seq<RoutedPiece>, item: HorizontalInterface) -> bool {
    &&& item.right.0 == item.left.0 + 1
    &&& item.right.1 == item.left.1
    &&& stands(list, item.left, item.left_spec_name@)
    &&& stands(list, item.right, item.right_spec_name@)
    &&& routing::connector_between(files, item.left_spec_name@, item.right_spec_name@) == Ok::<
        Seq<char>,
        routing::RoutingFailure,
    >(item.connector_spec_name@)
}

/// An interface joins two pieces of the routing, one below the other.
pub open spec fn joins_down(list: Seq<RoutedPiece>, item: VerticalInterface) -> bool {
    &&& item.bottom.0 == item.top.0
    &&& item.bottom.1 == item.top.1 + 1
    &&& stands(list, item.top, item.top_spec_name@)
    &&& stands(list, item.bottom, item.bottom_spec_name@)
}

proof fn lemma_across(
    files: &PatternFiles,
    pieces: Map<Place, Seq<char>>,
    order: Seq<Place>,
    k: nat,
    i: int,
)
    requires
        k <= order.len(),
        0 <= i < k,
        routing::all_across(files, pieces, order, k) is Ok,
    ensures
        routing::all_across(files, pieces, order, k)->Ok_0.len() == k,
        routing::across(files, pieces, order[i]) == Ok::<Names, routing::RoutingFailure>(
            routing::all_across(files, pieces, order, k)->Ok_0[i],
        ),
    decreases k,
{
    if k > 1 {
        lemma_across(files, pieces, order, (k - 1) as nat, if i < k - 1 { i } else { 0 });
    } else {
        assert(routing::all_across(files, pieces, order, 0)->Ok_0.len() == 0);
    }
}

proof fn lemma_down(pieces: Map<Place, Seq<char>>, order: Seq<Place>, k: nat, i: int)
    requires
        k <= order.len(),
        0 <= i < k,
        routing::all_down(pieces, order, k) is Ok,
    ensures
        routing::all_down(pieces, order, k)->Ok_0.len() == k,
        routing::down(pieces, order[i]) == Ok::<Names, routing::RoutingFailure>(
            routing::all_down(pieces, order, k)->Ok_0[i],
        ),
    decreases k,
{
    if k > 1 {
        lemma_down(pieces, order, (k - 1) as nat, if i < k - 1 { i } else { 0 });
    } else {
        assert(routing::all_down(pieces, order, 0)->Ok_0.len() == 0);
    }
}

/// The pieces of a witness are listed as they are.
proof fn lemma_stands(c: ConstructionModel, witness: RoutingWitness, pieces: Map<Place, Seq<char>>, at: (i32, i32))
    requires
        routing::lists_pieces(witness.pieces@, pieces),
        cellmap::lists_set(cellmap::ordered(pieces.dom()), pieces.dom()),
        pieces.contains_key(cellmap::place_of(at)),
    ensures
        stands(witness.pieces@, at, pieces[cellmap::place_of(at)]),
{
    let order = cellmap::ordered(pieces.dom());
    let p = cellmap::place_of(at);
    assert(order.contains(p));
    let i = choose|i: int| 0 <= i < order.len() && order[i] == p;
    assert(cellmap::place_of(witness.pieces@[i].coord) == order[i]);
    assert(witness.pieces@[i].coord == at);
}

/// The interfaces of a routing join pieces of it that lie beside each other or one below the
/// other.
pub proof fn law_interfaces_join_pieces(c: ConstructionModel, files: &PatternFiles, witness: RoutingWitness, i: int)
    requires
        routing::is_routing_result(c, files, Ok::<RoutingWitness, RoutingError>(witness)),
    ensures
        0 <= i < witness.horizontal_interfaces@.len() ==> joins_across(
            files,
            witness.pieces@,
            witness.horizontal_interfaces@[i],
        ),
        0 <= i < witness.vertical_interfaces@.len() ==> joins_down(witness.pieces@, witness.vertical_interfaces@[i]),
{
    let cells = routing::routed(c, c.nets.len())->Ok_0;
    let fixed = routing::instance_pieces(c, c.instances.len())->Ok_0;
    let pieces = routing::all_pieces(cells, fixed);
    let wide = cellmap::ordered(routing::seam(c, cells, RouteDir::E));
    let high = cellmap::ordered(routing::seam(c, cells, RouteDir::S));
    lemma_pieces_listed(c, files, witness);
    if 0 <= i < witness.horizontal_interfaces@.len() {
        let item = witness.horizontal_interfaces@[i];
        lemma_across(files, pieces, wide, wide.len(), i);
        assert(cellmap::place_of(item.left) == wide[i]);
        let names = routing::horizontal_names(item);
        assert(names == routing::across(files, pieces, wide[i])->Ok_0);
        assert(names[0] == pieces[cellmap::place_of(item.left)]);
        assert(names[2] == pieces[cellmap::place_of(item.right)]);
        lemma_stands(c, witness, pieces, item.left);
        lemma_stands(c, witness, pieces, item.right);
        assert(names[1] == routing::connector_between(files, names[0], names[2])->Ok_0);
    }
    if 0 <= i < witness.vertical_interfaces@.len() {
        let item = witness.vertical_interfaces@[i];
        lemma_down(pieces, high, high.len(), i);
        assert(cellmap::place_of(item.top) == high[i]);
        let names = routing::vertical_names(item);
        assert(names == routing::down(pieces, high[i])->Ok_0);
        assert(names[0] == pieces[cellmap::place_of(item.top)]);
        assert(names[1] == pieces[cellmap::place_of(item.bottom)]);
        lemma_stands(c, witness, pieces, item.top);
        lemma_stands(c, witness, pieces, item.bottom);
    }
}

proof fn lemma_pieces_listed(c: ConstructionModel, files: &PatternFiles, witness: RoutingWitness)
    requires
        routing::is_routing_result(c, files, Ok::<RoutingWitness, RoutingError>(witness)),
    ensures
        ({
            let cells = routing::routed(c, c.nets.len())->Ok_0;
            let fixed = routing::instance_pieces(c, c.instances.len())->Ok_0;
            let pieces = routing::all_pieces(cells, fixed);
            cellmap::lists_set(cellmap::ordered(pieces.dom()), pieces.dom())
        }),
{
    let cells = routing::routed(c, c.nets.len())->Ok_0;
    let fixed = routing::instance_pieces(c, c.instances.len())->Ok_0;
    let pieces = routing::all_pieces(cells, fixed);
    lemma_routed_finite(c, c.nets.len());
    lemma_instances_finite(c, c.instances.len());
    assert(pieces.dom() =~= cells.dom().union(fixed.dom()));
    lemma_listable(pieces.dom());
}

spec fn with_place(order: Seq<Place>, p: Place) -> Seq<Place>
    decreases order.len(),
{
    if order.len() == 0 || cellmap::place_less(order.last(), p) {
        order.push(p)
    } else {
        with_place(order.drop_last(), p).push(order.last())
    }
}

proof fn lemma_with_place(order: Seq<Place>, p: Place)
    requires
        cellmap::ascending(order),
        !order.contains(p),
    ensures
        cellmap::ascending(with_place(order, p)),
        forall|q: Place| #[trigger] with_place(order, p).contains(q) <==> q == p || order.contains(q),
    decreases order.len(),
{
    let after = with_place(order, p);
    if order.len() == 0 || cellmap::place_less(order.last(), p) {
        assert forall|i: int, j: int| #![trigger after[i], after[j]] 0 <= i < j < after.len() implies cellmap::place_less(
            after[i],
            after[j],
        ) by {
            if j == order.len() && i < order.len() - 1 {
                assert(cellmap::place_less(order[i], order[order.len() - 1]));
            }
        }
        assert forall|q: Place| #[trigger] after.contains(q) <==> q == p || order.contains(q) by {
            if q == p {
                assert(after[order.len() as int] == q);
            }
            if order.contains(q) {
                let i = choose|i: int| 0 <= i < order.len() && order[i] == q;
                assert(after[i] == q);
            }
        }
    } else {
        let rest = order.drop_last();
        let last = order.last();
        assert(order[order.len() - 1] == last);
        assert(last != p);
        assert(!rest.contains(p)) by {
            if rest.contains(p) {
                let i = choose|i: int| 0 <= i < rest.len() && rest[i] == p;
                assert(order[i] == p);
            }
        }
        lemma_with_place(rest, p);
        let before = with_place(rest, p);
        assert forall|i: int, j: int| #![trigger after[i], after[j]] 0 <= i < j < after.len() implies cellmap::place_less(
            after[i],
            after[j],
        ) by {
            if j == before.len() {
                assert(before.contains(before[i]));
                if before[i] != p {
                    let n = choose|n: int| 0 <= n < rest.len() && rest[n] == before[i];
                    assert(cellmap::place_less(order[n], order[order.len() - 1]));
                }
            } else {
                assert(cellmap::place_less(before[i], before[j]));
            }
        }
        assert forall|q: Place| #[trigger] after.contains(q) <==> q == p || order.contains(q) by {
            if before.contains(q) {
                let i = choose|i: int| 0 <= i < before.len() && before[i] == q;
                assert(after[i] == q);
            }
            if q == last {
                assert(after[before.len() as int] == q);
            }
            if order.contains(q) && q != last {
                let i = choose|i: int| 0 <= i < order.len() && order[i] == q;
                assert(rest[i] == q);
            }
            if rest.contains(q) {
                let i = choose|i: int| 0 <= i < rest.len() && rest[i] == q;
                assert(order[i] == q);
            }
            if after.contains(q) && q != last {
                let i = choose|i: int| 0 <= i < after.len() && after[i] == q;
                assert(before[i] == q);
            }
        }
    }
}

/// The places of a finite set can be listed.
pub proof fn lemma_listable(set: Set<Place>)
    requires
        set.finite(),
    ensures
        cellmap::lists_set(cellmap::ordered(set), set),
    decreases set.len(),
{
    if set.len() == 0 {
        assert(cellmap::lists_set(Seq::empty(), set));
    } else {
        let p = set.choose();
        let rest = set.remove(p);
        lemma_listable(rest);
        let order = cellmap::ordered(rest);
        assert(!order.contains(p));
        lemma_with_place(order, p);
        let after = with_place(order, p);
        assert forall|q: Place| #[trigger] after.contains(q) == set.contains(q) by {
            assert(order.contains(q) == rest.contains(q));
        }
        assert(cellmap::lists_set(after, set));
    }
}

proof fn lemma_laid_finite(
    cells: routing::RouteCells,
    path: Seq<Place>,
    source: RouteDir,
    target: RouteDir,
    net: nat,
    k: nat,
)
    requires
        cells.dom().finite(),
    ensures
        routing::laid(cells, path, source, target, net, k) matches Ok(after) ==> after.dom().finite(),
    decreases k,
{
    if k > 0 {
        lemma_laid_finite(cells, path, source, target, net, (k - 1) as nat);
    }
}

proof fn lemma_routed_finite(c: ConstructionModel, k: nat)
    ensures
        routing::routed(c, k) matches Ok(cells) ==> cells.dom().finite(),
    decreases k,
{
    if k > 0 {
        let net = (k - 1) as nat;
        lemma_routed_finite(c, net);
        if routing::routed(c, k) is Ok {
            let source = lanes::source_of(c, net)->Ok_0;
            let target = lanes::stub_of(c, c.nets[k - 1].to)->Ok_0;
            let path = lanes::path_of(c, net, source, target);
            lemma_laid_finite(routing::routed(c, net)->Ok_0, path, source.back, target.back, net, path.len());
        }
    }
}

proof fn lemma_instances_finite(c: ConstructionModel, k: nat)
    ensures
        routing::instance_pieces(c, k) matches Ok(fixed) ==> fixed.dom().finite(),
    decreases k,
{
    if k > 0 {
        lemma_instances_finite(c, (k - 1) as nat);
    }
}

/// An interface joins the piece at a place to the one in its east.
pub open spec fn is_joined_across(witness: RoutingWitness, at: (i32, i32)) -> bool {
    exists|i: int|
        0 <= i < witness.horizontal_interfaces@.len() && (#[trigger] witness.horizontal_interfaces@[i]).left == at
}

/// An interface joins the piece at a place to the one below.
pub open spec fn is_joined_down(witness: RoutingWitness, at: (i32, i32)) -> bool {
    exists|i: int|
        0 <= i < witness.vertical_interfaces@.len() && (#[trigger] witness.vertical_interfaces@[i]).top == at
}

/// The interfaces with some names.
pub open spec fn named_across(witness: RoutingWitness, names: Names) -> Set<int> {
    Set::new(
        |i: int|
            0 <= i < witness.horizontal_interfaces@.len() && routing::horizontal_names(witness.horizontal_interfaces@[i])
                == names,
    )
}

/// The interfaces with some names.
pub open spec fn named_down(witness: RoutingWitness, names: Names) -> Set<int> {
    Set::new(
        |i: int|
            0 <= i < witness.vertical_interfaces@.len() && routing::vertical_names(witness.vertical_interfaces@[i])
                == names,
    )
}

/// Cells of a routing that lead to each other are joined by an interface.
pub proof fn law_neighbours_are_joined(c: ConstructionModel, files: &PatternFiles, witness: RoutingWitness, a: int, b: int)
    requires
        routing::is_routing_result(c, files, Ok::<RoutingWitness, RoutingError>(witness)),
        0 <= a < witness.route_cells@.len(),
        0 <= b < witness.route_cells@.len(),
    ensures
        ({
            let (one, other) = (witness.route_cells@[a], witness.route_cells@[b]);
            let (p, q) = (cellmap::place_of(one.coord), cellmap::place_of(other.coord));
            &&& q == (p.0 + 1, p.1) && one.dirs.e && other.dirs.w ==> is_joined_across(witness, one.coord)
            &&& q == (p.0, p.1 + 1) && one.dirs.s && other.dirs.n ==> is_joined_down(witness, one.coord)
        }),
{
    let cells = routing::routed(c, c.nets.len())->Ok_0;
    let (one, other) = (witness.route_cells@[a], witness.route_cells@[b]);
    let (p, q) = (cellmap::place_of(one.coord), cellmap::place_of(other.coord));
    assert(cells.contains_key(p) && cells[p] == one.dirs);
    assert(cells.contains_key(q) && cells[q] == other.dirs);
    if q == (p.0 + 1, p.1) && one.dirs.e && other.dirs.w {
        assert(q == lanes::moved(p, RouteDir::E));
        assert(routing::joined(cells, p, RouteDir::E));
        lemma_listed_across(c, files, witness, one.coord);
    }
    if q == (p.0, p.1 + 1) && one.dirs.s && other.dirs.n {
        assert(q == lanes::moved(p, RouteDir::S));
        assert(routing::joined(cells, p, RouteDir::S));
        lemma_listed_down(c, files, witness, one.coord);
    }
}

proof fn lemma_listed_across(c: ConstructionModel, files: &PatternFiles, witness: RoutingWitness, at: (i32, i32))
    requires
        routing::is_routing_result(c, files, Ok::<RoutingWitness, RoutingError>(witness)),
        routing::seam(c, routing::routed(c, c.nets.len())->Ok_0, RouteDir::E).contains(cellmap::place_of(at)),
    ensures
        is_joined_across(witness, at),
{
    let cells = routing::routed(c, c.nets.len())->Ok_0;
    let wide = cellmap::ordered(routing::seam(c, cells, RouteDir::E));
    assert(wide.contains(cellmap::place_of(at)));
    let i = choose|i: int| 0 <= i < wide.len() && wide[i] == cellmap::place_of(at);
    assert(cellmap::place_of(witness.horizontal_interfaces@[i].left) == wide[i]);
    assert(witness.horizontal_interfaces@[i].left == at);
}

proof fn lemma_listed_down(c: ConstructionModel, files: &PatternFiles, witness: RoutingWitness, at: (i32, i32))
    requires
        routing::is_routing_result(c, files, Ok::<RoutingWitness, RoutingError>(witness)),
        routing::seam(c, routing::routed(c, c.nets.len())->Ok_0, RouteDir::S).contains(cellmap::place_of(at)),
    ensures
        is_joined_down(witness, at),
{
    let cells = routing::routed(c, c.nets.len())->Ok_0;
    let high = cellmap::ordered(routing::seam(c, cells, RouteDir::S));
    assert(high.contains(cellmap::place_of(at)));
    let i = choose|i: int| 0 <= i < high.len() && high[i] == cellmap::place_of(at);
    assert(cellmap::place_of(witness.vertical_interfaces@[i].top) == high[i]);
    assert(witness.vertical_interfaces@[i].top == at);
}

/// An instance is joined to the cell before its port: from west to east where the port faces east or
/// west, and from north to south where it faces the others.
pub proof fn law_ports_are_joined(
    c: ConstructionModel,
    files: &PatternFiles,
    witness: RoutingWitness,
    net: int,
    end: EndpointModel,
    at: (i32, i32),
    next: (i32, i32),
)
    requires
        routing::is_routing_result(c, files, Ok::<RoutingWitness, RoutingError>(witness)),
        0 <= net < c.nets.len(),
        end == c.nets[net].from || end == c.nets[net].to,
        end is Port,
        cellmap::place_of(at) == lanes::position(c, end->Port_0),
        lanes::kind_of(c, end->Port_0) is Some,
        routing::port_dir(lanes::kind_of(c, end->Port_0)->Some_0, end->Port_1) is Ok,
        cellmap::place_of(next) == lanes::moved(
            cellmap::place_of(at),
            routing::port_dir(lanes::kind_of(c, end->Port_0)->Some_0, end->Port_1)->Ok_0,
        ),
    ensures
        ({
            match routing::port_dir(lanes::kind_of(c, end->Port_0)->Some_0, end->Port_1)->Ok_0 {
                RouteDir::E => is_joined_across(witness, at),
                RouteDir::W => is_joined_across(witness, next),
                RouteDir::S => is_joined_down(witness, at),
                RouteDir::N => is_joined_down(witness, next),
            }
        }),
{
    let cells = routing::routed(c, c.nets.len())->Ok_0;
    let dir = routing::port_dir(lanes::kind_of(c, end->Port_0)->Some_0, end->Port_1)->Ok_0;
    let stub = lanes::stub_of(c, end)->Ok_0;
    assert(stub.place == cellmap::place_of(next));
    assert(c.nets[net].from == end || c.nets[net].to == end);
    match dir {
        RouteDir::E => {
            assert(routing::linked(c, end, cellmap::place_of(at), RouteDir::E));
            assert(routing::some_link(c, c.nets.len(), cellmap::place_of(at), RouteDir::E));
            lemma_listed_across(c, files, witness, at);
        },
        RouteDir::W => {
            assert(routing::linked(c, end, cellmap::place_of(next), RouteDir::E));
            assert(routing::some_link(c, c.nets.len(), cellmap::place_of(next), RouteDir::E));
            lemma_listed_across(c, files, witness, next);
        },
        RouteDir::S => {
            assert(routing::linked(c, end, cellmap::place_of(at), RouteDir::S));
            assert(routing::some_link(c, c.nets.len(), cellmap::place_of(at), RouteDir::S));
            lemma_listed_down(c, files, witness, at);
        },
        RouteDir::N => {
            assert(routing::linked(c, end, cellmap::place_of(next), RouteDir::S));
            assert(routing::some_link(c, c.nets.len(), cellmap::place_of(next), RouteDir::S));
            lemma_listed_down(c, files, witness, next);
        },
    }
}

/// Every interface belongs to a family with its names, and a family counts the interfaces with its
/// names.
pub proof fn law_families_count_interfaces(c: ConstructionModel, files: &PatternFiles, witness: RoutingWitness, k: int)
    requires
        routing::is_routing_result(c, files, Ok::<RoutingWitness, RoutingError>(witness)),
    ensures
        0 <= k < witness.horizontal_families@.len() ==> witness.horizontal_families@[k].count == named_across(
            witness,
            routing::horizontal_family_names(witness.horizontal_families@[k]),
        ).len(),
        0 <= k < witness.vertical_families@.len() ==> witness.vertical_families@[k].count == named_down(
            witness,
            routing::vertical_family_names(witness.vertical_families@[k]),
        ).len(),
        0 <= k < witness.horizontal_interfaces@.len() ==> exists|f: int|
            0 <= f < witness.horizontal_families@.len() && routing::horizontal_family_names(
                #[trigger] witness.horizontal_families@[f],
            ) == routing::horizontal_names(witness.horizontal_interfaces@[k]),
        0 <= k < witness.vertical_interfaces@.len() ==> exists|f: int|
            0 <= f < witness.vertical_families@.len() && routing::vertical_family_names(
                #[trigger] witness.vertical_families@[f],
            ) == routing::vertical_names(witness.vertical_interfaces@[k]),
{
    let cells = routing::routed(c, c.nets.len())->Ok_0;
    let fixed = routing::instance_pieces(c, c.instances.len())->Ok_0;
    let pieces = routing::all_pieces(cells, fixed);
    let wide = cellmap::ordered(routing::seam(c, cells, RouteDir::E));
    let high = cellmap::ordered(routing::seam(c, cells, RouteDir::S));
    let across = routing::all_across(files, pieces, wide, wide.len())->Ok_0;
    let down = routing::all_down(pieces, high, high.len())->Ok_0;
    let (wides, highs) = (witness.horizontal_interfaces@, witness.vertical_interfaces@);
    if 0 <= k < witness.horizontal_families@.len() {
        let names = routing::horizontal_family_names(witness.horizontal_families@[k]);
        routes::law_occurrences(across, names);
        assert(routes::held_at(across, names) =~= named_across(witness, names));
    }
    if 0 <= k < witness.vertical_families@.len() {
        let names = routing::vertical_family_names(witness.vertical_families@[k]);
        routes::law_occurrences(down, names);
        assert(routes::held_at(down, names) =~= named_down(witness, names));
    }
    if 0 <= k < wides.len() {
        assert(across.contains(across[k]));
        assert(routing::horizontal_names(wides[k]) == across[k]);
    }
    if 0 <= k < highs.len() {
        assert(down.contains(down[k]));
        assert(routing::vertical_names(highs[k]) == down[k]);
    }
}

} // verus!
