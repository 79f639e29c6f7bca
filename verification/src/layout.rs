//! The layout of a board: which piece stands where, and which pieces are linked.

use crate::board_error::{BoardError, BoardFailure};
use crate::cellmap;
use crate::cellmap::{Place, PlaceMap};
use crate::compiler;
use crate::compiler::{CompiledConstruction, ConstructionModel, EndpointModel, MacroModel};
use crate::lanes;
use crate::lanes::Lanes;
use crate::routing;
use crate::routing::{
    place_instances, route_nets, seam_places, tile_cells, RouteCells, RouteDir, RouteDirs, RoutedCell, RoutingError,
    RoutingFailure,
};
use vstd::prelude::*;

verus! {

/// All pieces: the tiles of the cells, and the instances elsewhere.
pub open spec fn board_pieces(cells: RouteCells, fixed: Map<Place, Seq<char>>) -> Map<Place, Seq<char>> {
    Map::new(
        |p: Place| fixed.contains_key(p) || cells.contains_key(p),
        |p: Place|
            if cells.contains_key(p) {
                routing::tile_of(cells[p])->Some_0
            } else {
                fixed[p]
            },
    )
}

/// The cells of the paths, and the pieces.
pub struct LayoutModel {
    pub cells: RouteCells,
    pub pieces: Map<Place, Seq<char>>,
}

/// The first cell that no tile fits.
pub open spec fn first_untiled(cells: RouteCells) -> Place {
    choose|p: Place| routing::is_first_untiled(cells, p)
}

/// The layout of a construction.
pub open spec fn layout_of(c: ConstructionModel) -> Result<LayoutModel, BoardFailure> {
    match routing::instance_pieces(c, c.instances.len()) {
        Err(failure) => Err(BoardFailure::Route(failure)),
        Ok(fixed) => match routing::routed(c, c.nets.len()) {
            Err(failure) => Err(BoardFailure::Route(failure)),
            Ok(cells) => if routing::some_untiled(cells) {
                Err(BoardFailure::Route(RoutingFailure::NoTile(cells[first_untiled(cells)])))
            } else {
                Ok(LayoutModel { cells, pieces: board_pieces(cells, fixed) })
            },
        },
    }
}

/// The places that are linked to their neighbours in a direction, in order.
pub open spec fn seam_order(c: ConstructionModel, model: LayoutModel, dir: RouteDir) -> Seq<Place> {
    cellmap::ordered(routing::seam(c, model.cells, dir))
}

/// A layout.
#[derive(Debug)]
pub struct BoardLayout {
    pub pieces: PlaceMap<&'static str>,
    pub wide: Vec<(i32, i32)>,
    pub high: Vec<(i32, i32)>,
}

/// The layout is what the model says.
pub open spec fn is_layout(layout: BoardLayout, c: ConstructionModel, model: LayoutModel) -> bool {
    &&& routing::piece_texts(layout.pieces@) == model.pieces
    &&& lanes::places(layout.wide@) == seam_order(c, model, RouteDir::E)
    &&& lanes::places(layout.high@) == seam_order(c, model, RouteDir::S)
    &&& cellmap::lists_set(lanes::places(layout.wide@), routing::seam(c, model.cells, RouteDir::E))
    &&& cellmap::lists_set(lanes::places(layout.high@), routing::seam(c, model.cells, RouteDir::S))
    &&& links_pieces(lanes::places(layout.wide@), RouteDir::E, model.pieces)
    &&& links_pieces(lanes::places(layout.high@), RouteDir::S, model.pieces)
}

/// A piece stands at every place, and at its neighbour.
pub open spec fn links_pieces(order: Seq<Place>, dir: RouteDir, pieces: Map<Place, Seq<char>>) -> bool {
    forall|p: Place| #[trigger]
        order.contains(p) ==> pieces.contains_key(p) && pieces.contains_key(lanes::moved(p, dir)) && lanes::moved(
            p,
            dir,
        ).0 <= i32::MAX && lanes::moved(p, dir).1 <= i32::MAX
}

proof fn lemma_untiled_unique(cells: RouteCells, p: Place)
    requires
        routing::is_first_untiled(cells, p),
    ensures
        first_untiled(cells) == p,
{
    let q = first_untiled(cells);
    assert(routing::is_first_untiled(cells, q));
    assert(cells.contains_key(p) && cells.contains_key(q));
    if p != q {
        assert(cellmap::place_less(p, q) || cellmap::place_less(q, p));
    }
}

proof fn lemma_laid_covers(
    cells: RouteCells,
    path: Seq<Place>,
    source: RouteDir,
    target: RouteDir,
    net: nat,
    k: nat,
)
    requires
        k <= path.len(),
    ensures
        routing::laid(cells, path, source, target, net, k) matches Ok(after) ==> (forall|p: Place| #[trigger]
            cells.contains_key(p) ==> after.contains_key(p)) && (forall|i: int|
            0 <= i < k ==> after.contains_key(#[trigger] path[i])),
    decreases k,
{
    if k > 0 {
        lemma_laid_covers(cells, path, source, target, net, (k - 1) as nat);
        if let Ok(after) = routing::laid(cells, path, source, target, net, k) {
            let before = routing::laid(cells, path, source, target, net, (k - 1) as nat)->Ok_0;
            assert forall|i: int| 0 <= i < k implies after.contains_key(#[trigger] path[i]) by {
                if i < k - 1 {
                    assert(before.contains_key(path[i]));
                }
            }
        }
    }
}

/// The ends of the path of a routed net are cells.
pub proof fn lemma_ends_routed(c: ConstructionModel, net: nat, k: nat)
    requires
        net < k <= c.nets.len(),
        routing::routed(c, k) is Ok,
    ensures
        lanes::stub_of(c, c.nets[net as int].to) matches Ok(target) && routing::routed(c, k)->Ok_0.contains_key(
            target.place,
        ),
        lanes::source_of(c, net) matches Ok(source) && routing::routed(c, k)->Ok_0.contains_key(source.place),
    decreases k,
{
    let last = (k - 1) as nat;
    let source = lanes::source_of(c, last)->Ok_0;
    let target = lanes::stub_of(c, c.nets[k - 1].to)->Ok_0;
    let path = lanes::path_of(c, last, source, target);
    let before = routing::routed(c, last)->Ok_0;
    lemma_laid_covers(before, path, source.back, target.back, last, path.len());
    if net == last {
        lanes::lemma_path(c, last, source, target);
        assert(routing::routed(c, k)->Ok_0.contains_key(path[0]));
        assert(routing::routed(c, k)->Ok_0.contains_key(path[path.len() - 1]));
    } else {
        lemma_ends_routed(c, net, last);
    }
}

/// A piece stands where an instance does.
proof fn lemma_instance_placed(c: ConstructionModel, id: nat, k: nat)
    requires
        k <= c.instances.len(),
        lanes::kind_among(c.instances, k, id) is Some,
        routing::instance_pieces(c, k) is Ok,
    ensures
        routing::instance_pieces(c, k)->Ok_0.contains_key(lanes::position(c, id)),
        exists|i: int| 0 <= i < k && (#[trigger] c.instances[i]).kind == lanes::kind_among(c.instances, k, id)->Some_0,
    decreases k,
{
    if k > 0 {
        let last = (k - 1) as nat;
        if lanes::kind_among(c.instances, last, id) is Some {
            lemma_instance_placed(c, id, last);
        } else {
            assert(c.instances[k - 1].id == id);
        }
    }
}

/// Every link of a routing joins two pieces.
pub proof fn law_seams_join_pieces(c: ConstructionModel, cells: RouteCells, fixed: Map<Place, Seq<char>>, dir: RouteDir, p: Place)
    requires
        routing::routed(c, c.nets.len()) == Ok::<RouteCells, RoutingFailure>(cells),
        routing::instance_pieces(c, c.instances.len()) == Ok::<Map<Place, Seq<char>>, RoutingFailure>(fixed),
        routing::seam(c, cells, dir).contains(p),
    ensures
        cells.contains_key(p) || fixed.contains_key(p),
        cells.contains_key(lanes::moved(p, dir)) || fixed.contains_key(lanes::moved(p, dir)),
{
    if !routing::joined(cells, p, dir) {
        let i = choose|i: int| #![trigger c.nets[i]]
            0 <= i < c.nets.len() && (routing::linked(c, c.nets[i].to, p, dir) || routing::linked(
                c,
                c.nets[i].from,
                p,
                dir,
            ));
        lemma_ends_routed(c, i as nat, c.nets.len());
        if routing::linked(c, c.nets[i].to, p, dir) {
            lemma_instance_placed(c, c.nets[i].to->Port_0, c.instances.len());
        } else {
            lemma_instance_placed(c, c.nets[i].from->Port_0, c.instances.len());
        }
    }
}

/// A net never leads to or from a port that has no direction for being an input, where
/// every instance is realised by a pattern.
pub proof fn law_no_input_port_routed(c: ConstructionModel, k: nat)
    requires
        routing::instance_pieces(c, c.instances.len()) is Ok,
        k <= c.nets.len(),
    ensures
        routing::routed(c, k) != Err::<RouteCells, RoutingFailure>(RoutingFailure::InputPortDirection),
    decreases k,
{
    if k > 0 {
        law_no_input_port_routed(c, (k - 1) as nat);
        lemma_no_input_stub(c, c.nets[k - 1].to);
        lemma_no_input_stub(c, c.nets[k - 1].from);
        if let Ok(cells) = routing::routed(c, (k - 1) as nat) {
            if let Ok(target) = lanes::stub_of(c, c.nets[k - 1].to) {
                if let Ok(source) = lanes::source_of(c, (k - 1) as nat) {
                    let path = lanes::path_of(c, (k - 1) as nat, source, target);
                    lemma_laid_conflicts(cells, path, source.back, target.back, (k - 1) as nat, path.len());
                }
            }
        }
    }
}

proof fn lemma_laid_conflicts(
    cells: RouteCells,
    path: Seq<Place>,
    source: RouteDir,
    target: RouteDir,
    net: nat,
    k: nat,
)
    ensures
        routing::laid(cells, path, source, target, net, k) matches Err(failure) ==> failure is Conflict,
    decreases k,
{
    if k > 0 {
        lemma_laid_conflicts(cells, path, source, target, net, (k - 1) as nat);
    }
}

proof fn lemma_no_input_stub(c: ConstructionModel, end: EndpointModel)
    requires
        routing::instance_pieces(c, c.instances.len()) is Ok,
    ensures
        lanes::stub_of(c, end) matches Err(failure) ==> failure != RoutingFailure::InputPortDirection,
{
    if let EndpointModel::Port(id, port) = end {
        if let Some(kind) = lanes::kind_of(c, id) {
            lemma_instance_placed(c, id, c.instances.len());
            let i = choose|i: int| 0 <= i < c.instances.len() && (#[trigger] c.instances[i]).kind == kind;
            lemma_instance_realised(c, i, c.instances.len());
        }
    }
}

proof fn lemma_instance_realised(c: ConstructionModel, i: int, k: nat)
    requires
        0 <= i < k <= c.instances.len(),
        routing::instance_pieces(c, k) is Ok,
    ensures
        compiler::published_name(c.instances[i].kind) is Some,
    decreases k,
{
    if i < k - 1 {
        lemma_instance_realised(c, i, (k - 1) as nat);
    }
}

/// Puts the tiles of the cells over the instances.
fn cover_tiles(pieces: &mut PlaceMap<&'static str>, list: &Vec<RoutedCell>, cells: &PlaceMap<RouteDirs>)
    requires
        routing::lists_cells(list@, cells@),
    ensures
        routing::piece_texts(final(pieces)@) == board_pieces(cells@, routing::piece_texts(old(pieces)@)),
{
    let ghost before = pieces@;
    let ghost order = cellmap::ordered(cells@.dom());
    let entries: Vec<((i32, i32), RouteDirs)> = cells.entries();
    proof {
        cellmap::lemma_entries_ordered(entries@, cells@);
    }
    let mut k: usize = 0;
    while k < list.len()
        invariant
            k <= list@.len(),
            before == old(pieces)@,
            order == cellmap::ordered(cells@.dom()),
            order == cellmap::entry_places(entries@),
            cellmap::lists_map(entries@, cells@),
            routing::lists_cells(list@, cells@),
            forall|p: Place| #[trigger]
                pieces@.contains_key(p) <==> before.contains_key(p) || order.take(k as int).contains(p),
            forall|p: Place| #[trigger]
                pieces@.contains_key(p) ==> if order.take(k as int).contains(p) {
                    routing::tile_of(cells@[p]) == Some(pieces@[p]@)
                } else {
                    pieces@[p] == before[p]
                },
        decreases list.len() - k,
    {
        assert(cellmap::place_of(list@[k as int].coord) == order[k as int]);
        let ghost earlier = pieces@;
        let ghost here = order[k as int];
        pieces.insert(list[k].coord, list[k].spec_name);
        proof {
            assert forall|p: Place| #[trigger]
                pieces@.contains_key(p) <==> before.contains_key(p) || order.take(k + 1).contains(p) by {
                crate::seqs::lemma_take_contains(order, k as int, p);
                assert(earlier.contains_key(p) <==> before.contains_key(p) || order.take(k as int).contains(p));
            }
            assert forall|p: Place| #[trigger] pieces@.contains_key(p) implies if order.take(k + 1).contains(p) {
                routing::tile_of(cells@[p]) == Some(pieces@[p]@)
            } else {
                pieces@[p] == before[p]
            } by {
                crate::seqs::lemma_take_contains(order, k as int, p);
                if p != here {
                    assert(earlier.contains_key(p));
                    assert(pieces@[p] == earlier[p]);
                }
            }
        }
        k += 1;
    }
    proof {
        assert(order.take(k as int) =~= order);
        assert forall|p: Place| #[trigger] order.contains(p) == cells@.contains_key(p) by {
            if cells@.contains_key(p) {
                let i = choose|i: int| 0 <= i < entries@.len() && cellmap::place_of((#[trigger] entries@[i]).0) == p;
                assert(order[i] == p);
            }
            if order.contains(p) {
                let i = choose|i: int| 0 <= i < order.len() && order[i] == p;
                assert(cells@.contains_key(cellmap::place_of(entries@[i].0)));
            }
        }
        let wanted = board_pieces(cells@, routing::piece_texts(before));
        assert forall|p: Place| #[trigger] pieces@.contains_key(p) == wanted.contains_key(p) by {}
        assert(routing::piece_texts(pieces@) =~= wanted);
    }
}

proof fn lemma_links_pieces(
    c: ConstructionModel,
    cells: &PlaceMap<RouteDirs>,
    fixed: Map<Place, Seq<char>>,
    order: Seq<Place>,
    dir: RouteDir,
)
    requires
        lanes::board_fits(c),
        dir == RouteDir::E || dir == RouteDir::S,
        routing::routed(c, c.nets.len()) == Ok::<RouteCells, RoutingFailure>(cells@),
        routing::instance_pieces(c, c.instances.len()) == Ok::<Map<Place, Seq<char>>, RoutingFailure>(fixed),
        cellmap::lists_set(order, routing::seam(c, cells@, dir)),
    ensures
        links_pieces(order, dir, board_pieces(cells@, fixed)),
{
    routing::lemma_neighbours_fit(c, cells, order, dir);
    assert forall|p: Place| #[trigger] order.contains(p) implies board_pieces(cells@, fixed).contains_key(p)
        && board_pieces(cells@, fixed).contains_key(lanes::moved(p, dir)) by {
        assert(routing::seam(c, cells@, dir).contains(p));
        law_seams_join_pieces(c, cells@, fixed, dir, p);
    }
}

/// Lays out a construction.
pub(crate) fn prepare_layout(construction: &CompiledConstruction) -> (result: Result<BoardLayout, BoardError>)
    requires
        construction.variable_inputs.wf(),
        lanes::board_fits(construction@),
        routing::sources_known(construction@),
    ensures
        match layout_of(construction@) {
            Ok(model) => result matches Ok(layout) && is_layout(layout, construction@, model),
            Err(failure) => result matches Err(error) && error@ == failure,
        },
{
    let ghost c = construction@;
    let lanes: Lanes = Lanes::new(construction);
    let mut pieces: PlaceMap<&'static str> = match place_instances(&lanes) {
        Ok(found) => found,
        Err(error) => {
            return Err(BoardError::Route { error });
        },
    };
    let (cells, _paths): (PlaceMap<RouteDirs>, Vec<Vec<(i32, i32)>>) = match route_nets(construction) {
        Ok(found) => found,
        Err(error) => {
            return Err(BoardError::Route { error });
        },
    };
    let tiles: Vec<RoutedCell> = match tile_cells(&cells) {
        Ok(list) => list,
        Err(error) => {
            proof {
                let p = choose|p: Place| #[trigger]
                    routing::is_first_untiled(cells@, p) && error == (RoutingError::NoTile { dirs: cells@[p] });
                lemma_untiled_unique(cells@, p);
            }
            return Err(BoardError::Route { error });
        },
    };
    let ghost fixed = routing::piece_texts(pieces@);
    cover_tiles(&mut pieces, &tiles, &cells);
    let wide: Vec<(i32, i32)> = seam_places(&lanes, &cells, RouteDir::E);
    let high: Vec<(i32, i32)> = seam_places(&lanes, &cells, RouteDir::S);
    proof {
        lemma_links_pieces(c, &cells, fixed, lanes::places(wide@), RouteDir::E);
        lemma_links_pieces(c, &cells, fixed, lanes::places(high@), RouteDir::S);
    }
    Ok(BoardLayout { pieces, wide, high })
}

} // verus!
