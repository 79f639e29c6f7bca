//! Boards: the patterns of a construction, placed side by side on one grid.

use crate::board_error::{BoardError, BoardFailure};
use crate::candidates::HorizontalPlacementCandidate;
use crate::cellmap;
use crate::cellmap::{Place, PlaceMap};
use crate::compiler::{CompiledConstruction, ConstructionModel};
use crate::corridors;
use crate::corridors::{Link, Vector};
use crate::deltas;
use crate::deltas::{horizontal_candidates, ordered_places, vertical_candidates, LinkModel, PieceLink};
use crate::grid::{grid_to_string, Grid};
use crate::lanes;
use crate::layout;
use crate::layout::{prepare_layout, BoardLayout, LayoutModel};
use crate::library;
use crate::placement;
use crate::placement::PlacementProblem;
use crate::published::{PatternFiles, PublishedPattern};
use crate::routing;
use crate::routing::RouteDir;
use crate::search;
use crate::search::{solve_origins, PlacementError};
use crate::settings::BoundaryCondition;
use crate::stock;
use crate::stock::PublishedLibrary;
use crate::text::same_text;
use vstd::prelude::*;

verus! {

/// A place with its coordinates exchanged.
pub open spec fn swapped(place: Place) -> Place {
    (place.1, place.0)
}

/// The places with their coordinates exchanged.
pub open spec fn swapped_set(set: Set<Place>) -> Set<Place> {
    Set::new(|p: Place| set.contains(swapped(p)))
}

/// Places by rows, and then by columns.
pub open spec fn lane_order(set: Set<Place>) -> Seq<Place> {
    Seq::new(cellmap::ordered(swapped_set(set)).len(), |i: int| swapped(cellmap::ordered(swapped_set(set))[i]))
}

/// How the piece at a place is linked to its neighbour.
pub open spec fn link_at(
    files: &PatternFiles,
    pieces: Map<Place, Seq<char>>,
    dir: RouteDir,
    place: Place,
) -> Result<LinkModel, BoardFailure> {
    if dir == RouteDir::E {
        deltas::link_across(files, pieces[place], pieces[lanes::moved(place, dir)])
    } else {
        deltas::link_down(files, pieces[place], pieces[lanes::moved(place, dir)])
    }
}

/// The links at the first `k` places.
pub open spec fn links_at(
    files: &PatternFiles,
    pieces: Map<Place, Seq<char>>,
    dir: RouteDir,
    order: Seq<Place>,
    k: nat,
) -> Result<Seq<LinkModel>, BoardFailure>
    decreases k,
{
    if k == 0 {
        Ok(Seq::empty())
    } else {
        match links_at(files, pieces, dir, order, (k - 1) as nat) {
            Err(failure) => Err(failure),
            Ok(earlier) => match link_at(files, pieces, dir, order[k - 1]) {
                Err(failure) => Err(failure),
                Ok(link) => Ok(earlier.push(link)),
            },
        }
    }
}

/// The places that a link allows.
pub open spec fn link_places(link: LinkModel) -> Seq<(i128, i128)> {
    deltas::allowed_places(link.candidates, link.default)
}

/// A link of the placement joins a place to its neighbour, as the model says.
pub open spec fn is_placed_link(link: Link, order: Seq<Place>, place: Place, dir: RouteDir, model: LinkModel) -> bool {
    &&& link.from < order.len()
    &&& link.to < order.len()
    &&& order[link.from as int] == place
    &&& order[link.to as int] == lanes::moved(place, dir)
    &&& link.deltas@ == link_places(model)
}

/// The links of the placement are those at the places.
pub open spec fn are_placed_links(
    links: Seq<Link>,
    first: int,
    order: Seq<Place>,
    places: Seq<Place>,
    dir: RouteDir,
    models: Seq<LinkModel>,
) -> bool {
    forall|l: int|
        0 <= l < places.len() ==> is_placed_link(
            #[trigger] links[first + l],
            order,
            places[l],
            dir,
            models[l],
        )
}

/// The names of the pieces at places.
pub open spec fn names_at(pieces: Map<Place, Seq<char>>, order: Seq<Place>) -> Seq<Seq<char>> {
    Seq::new(order.len(), |i: int| pieces[order[i]])
}

/// The names are those given.
pub open spec fn are_names(names: Seq<&'static str>, wanted: Seq<Seq<char>>) -> bool {
    &&& names.len() == wanted.len()
    &&& forall|i: int| 0 <= i < names.len() ==> (#[trigger] names[i])@ == wanted[i]
}

/// The placement problem of a layout.
pub open spec fn is_problem(
    p: PlacementProblem,
    pieces: Map<Place, Seq<char>>,
    wide: Seq<Place>,
    high: Seq<Place>,
    across: Seq<LinkModel>,
    down: Seq<LinkModel>,
) -> bool {
    let order = cellmap::ordered(pieces.dom());
    &&& p.wf()
    &&& p.nodes == order.len()
    &&& lanes::places(p.places@) == order
    &&& are_names(p.names@, names_at(pieces, order))
    &&& forall|i: int|
        0 <= i < p.nodes ==> #[trigger] p.level@[i] == (pieces[order[i]] == "horizontal wire tile"@)
    &&& forall|i: int|
        0 <= i < p.nodes ==> #[trigger] p.upright@[i] == (pieces[order[i]] == "vertical wire tile"@)
    &&& p.across == wide.len()
    &&& p.links@.len() == wide.len() + high.len()
    &&& are_placed_links(p.links@, 0, order, wide, RouteDir::E, across)
    &&& are_placed_links(p.links@, wide.len() as int, order, high, RouteDir::S, down)
}

/// A result is the failure.
pub open spec fn problem_fails(result: Result<PlacementProblem, BoardError>, failure: BoardFailure) -> bool {
    result matches Err(error) && error@ == failure
}

/// The result of turning a layout into a placement problem.
pub open spec fn is_problem_result(
    files: &PatternFiles,
    c: ConstructionModel,
    model: LayoutModel,
    result: Result<PlacementProblem, BoardError>,
) -> bool {
    let wide = lane_order(routing::seam(c, model.cells, RouteDir::E));
    let high = layout::seam_order(c, model, RouteDir::S);
    match links_at(files, model.pieces, RouteDir::E, wide, wide.len()) {
        Err(failure) => problem_fails(result, failure),
        Ok(across) => match links_at(files, model.pieces, RouteDir::S, high, high.len()) {
            Err(failure) => problem_fails(result, failure),
            Ok(down) => result matches Ok(p) && is_problem(p, model.pieces, wide, high, across, down),
        },
    }
}

proof fn lemma_links_fail(
    files: &PatternFiles,
    pieces: Map<Place, Seq<char>>,
    dir: RouteDir,
    order: Seq<Place>,
    j: nat,
    k: nat,
)
    requires
        j <= k,
        links_at(files, pieces, dir, order, j) is Err,
    ensures
        links_at(files, pieces, dir, order, k) == links_at(files, pieces, dir, order, j),
    decreases k,
{
    if j < k {
        lemma_links_fail(files, pieces, dir, order, j, (k - 1) as nat);
    }
}

pub proof fn lemma_link_there(
    files: &PatternFiles,
    pieces: Map<Place, Seq<char>>,
    dir: RouteDir,
    order: Seq<Place>,
    i: int,
    k: nat,
)
    requires
        0 <= i < k <= order.len(),
        links_at(files, pieces, dir, order, k) is Ok,
    ensures
        links_at(files, pieces, dir, order, k)->Ok_0.len() == k,
        link_at(files, pieces, dir, order[i]) == Ok::<LinkModel, BoardFailure>(
            links_at(files, pieces, dir, order, k)->Ok_0[i],
        ),
    decreases k,
{
    if k > 1 {
        if i < k - 1 {
            lemma_link_there(files, pieces, dir, order, i, (k - 1) as nat);
        } else {
            lemma_link_there(files, pieces, dir, order, 0, (k - 1) as nat);
        }
    } else {
        reveal_with_fuel(links_at, 2);
    }
}

proof fn lemma_fewer(some: Seq<Place>, all: Seq<Place>)
    requires
        some.no_duplicates(),
        forall|p: Place| #[trigger] some.contains(p) ==> all.contains(p),
    ensures
        some.len() <= all.len(),
{
    some.unique_seq_to_set();
    all.lemma_cardinality_of_set();
    vstd::seq_lib::seq_to_set_is_finite(all);
    assert(some.to_set().subset_of(all.to_set())) by {
        assert forall|p: Place| some.to_set().contains(p) implies all.to_set().contains(p) by {
            assert(some.contains(p));
            assert(all.contains(p));
        }
    }
    vstd::set_lib::lemma_len_subset(some.to_set(), all.to_set());
}

/// The places by rows, and then by columns.
fn in_lane_order(list: &Vec<(i32, i32)>, set: Ghost<Set<Place>>) -> (lane: Vec<(i32, i32)>)
    requires
        cellmap::lists_set(lanes::places(list@), set@),
    ensures
        lanes::places(lane@) == lane_order(set@),
        lanes::places(lane@).no_duplicates(),
        forall|p: Place| #[trigger] lanes::places(lane@).contains(p) <==> set@.contains(p),
{
    let ghost way = lanes::places(list@);
    let mut marks: PlaceMap<bool> = PlaceMap::new();
    let mut k: usize = 0;
    while k < list.len()
        invariant
            k <= list@.len(),
            way == lanes::places(list@),
            forall|p: Place| #[trigger] marks@.contains_key(p) <==> way.take(k as int).contains(swapped(p)),
        decreases list.len() - k,
    {
        let ghost before = marks@;
        let place: (i32, i32) = list[k];
        assert(way[k as int] == cellmap::place_of(place));
        marks.insert((place.1, place.0), true);
        proof {
            assert forall|p: Place| #[trigger] marks@.contains_key(p) <==> way.take(k + 1).contains(swapped(p)) by {
                crate::seqs::lemma_take_contains(way, k as int, swapped(p));
                assert(before.contains_key(p) <==> way.take(k as int).contains(swapped(p)));
            }
        }
        k += 1;
    }
    let entries: Vec<((i32, i32), bool)> = marks.entries();
    let ghost turned = swapped_set(set@);
    proof {
        assert(way.take(k as int) =~= way);
        assert(marks@.dom() =~= turned) by {
            assert forall|p: Place| marks@.dom().contains(p) <==> turned.contains(p) by {
                assert(marks@.contains_key(p) <==> way.contains(swapped(p)));
            }
        }
        cellmap::lemma_entries_ordered(entries@, marks@);
    }
    let mut lane: Vec<(i32, i32)> = Vec::new();
    let mut m: usize = 0;
    while m < entries.len()
        invariant
            m <= entries@.len(),
            lane@.len() == m,
            cellmap::entry_places(entries@) == cellmap::ordered(turned),
            turned == swapped_set(set@),
            forall|i: int| 0 <= i < m ==> cellmap::place_of(#[trigger] lane@[i]) == lane_order(set@)[i],
        decreases entries.len() - m,
    {
        let (key, _mark): ((i32, i32), bool) = entries[m];
        assert(cellmap::entry_places(entries@)[m as int] == cellmap::place_of(key));
        lane.push((key.1, key.0));
        m += 1;
    }
    proof {
        let order = cellmap::ordered(turned);
        let result = lanes::places(lane@);
        assert(result =~= lane_order(set@));
        assert forall|i: int, j: int| 0 <= i < result.len() && 0 <= j < result.len() && i != j implies result[i]
            != result[j] by {
            assert(cellmap::place_of(entries@[i].0) == order[i] && cellmap::place_of(entries@[j].0) == order[j]);
            if i < j {
                assert(cellmap::place_less(cellmap::place_of(entries@[i].0), cellmap::place_of(entries@[j].0)));
            } else {
                assert(cellmap::place_less(cellmap::place_of(entries@[j].0), cellmap::place_of(entries@[i].0)));
            }
        }
        assert forall|p: Place| #[trigger] result.contains(p) <==> set@.contains(p) by {
            if result.contains(p) {
                let i = choose|i: int| 0 <= i < result.len() && result[i] == p;
                assert(marks@.contains_key(cellmap::place_of(entries@[i].0)));
                assert(turned.contains(swapped(p)));
            }
            if set@.contains(p) {
                assert(turned.contains(swapped(p)));
                assert(marks@.contains_key(swapped(p)));
                let i = choose|i: int|
                    0 <= i < entries@.len() && cellmap::place_of((#[trigger] entries@[i]).0) == swapped(p);
                assert(cellmap::entry_places(entries@)[i] == swapped(p));
                assert(result[i] == p);
            }
        }
    }
    lane
}

/// The numbers of the pieces, by their places.
pub open spec fn is_numbering(numbers: Map<Place, usize>, order: Seq<Place>) -> bool {
    forall|p: Place| #[trigger]
        order.contains(p) ==> numbers.contains_key(p) && numbers[p] < order.len() && order[numbers[p] as int] == p
}

/// Numbers the places.
fn number_places(order: &Vec<(i32, i32)>) -> (numbers: PlaceMap<usize>)
    requires
        lanes::places(order@).no_duplicates(),
    ensures
        is_numbering(numbers@, lanes::places(order@)),
{
    let ghost way = lanes::places(order@);
    let mut numbers: PlaceMap<usize> = PlaceMap::new();
    let mut k: usize = 0;
    while k < order.len()
        invariant
            k <= order@.len(),
            way == lanes::places(order@),
            way.no_duplicates(),
            forall|i: int|
                0 <= i < k ==> numbers@.contains_key(#[trigger] way[i]) && numbers@[way[i]] == i,
        decreases order.len() - k,
    {
        assert(way[k as int] == cellmap::place_of(order@[k as int]));
        numbers.insert(order[k], k);
        assert forall|i: int| 0 <= i < k + 1 implies numbers@.contains_key(#[trigger] way[i]) && numbers@[way[i]] == i by {
            if i < k {
                assert(way[i] != way[k as int]);
            }
        }
        k += 1;
    }
    proof {
        assert forall|p: Place| #[trigger] way.contains(p) implies numbers@.contains_key(p) && numbers@[p] < way.len()
            && way[numbers@[p] as int] == p by {
            let i = choose|i: int| 0 <= i < way.len() && way[i] == p;
            assert(numbers@[way[i]] == i);
        }
    }
    numbers
}

/// Adds the links at the places.
#[verifier::rlimit(40)]
fn push_links(
    links: &mut Vec<Link>,
    stock: &PublishedLibrary,
    files: Ghost<&PatternFiles>,
    pieces: &PlaceMap<&'static str>,
    numbers: &PlaceMap<usize>,
    all: Ghost<Seq<Place>>,
    order: &Vec<(i32, i32)>,
    level: bool,
    connectors: &mut Vec<&'static str>,
) -> (result: Result<(), BoardError>)
    requires
        stock.wf(files@),
        is_numbering(numbers@, all@),
        forall|p: Place| #[trigger] all@.contains(p) <==> pieces@.contains_key(p),
        layout::links_pieces(
            lanes::places(order@),
            if level { RouteDir::E } else { RouteDir::S },
            routing::piece_texts(pieces@),
        ),
    ensures
        match links_at(
            files@,
            routing::piece_texts(pieces@),
            if level { RouteDir::E } else { RouteDir::S },
            lanes::places(order@),
            order@.len(),
        ) {
            Ok(models) => {
                &&& result is Ok
                &&& final(links)@.len() == old(links)@.len() + order@.len()
                &&& final(connectors)@.len() == old(connectors)@.len() + order@.len()
                &&& forall|l: int| 0 <= l < old(links)@.len() ==> #[trigger] final(links)@[l] == old(links)@[l]
                &&& are_placed_links(
                    final(links)@,
                    old(links)@.len() as int,
                    all@,
                    lanes::places(order@),
                    if level { RouteDir::E } else { RouteDir::S },
                    models,
                )
            },
            Err(failure) => result matches Err(error) && error@ == failure,
        },
{
    let ghost texts = routing::piece_texts(pieces@);
    let ghost way = lanes::places(order@);
    let ghost dir = if level { RouteDir::E } else { RouteDir::S };
    let ghost before = links@;
    let ghost named = connectors@.len();
    let ghost mut models: Seq<LinkModel> = Seq::empty();
    let mut k: usize = 0;
    while k < order.len()
        invariant
            k <= order@.len(),
            stock.wf(files@),
            texts == routing::piece_texts(pieces@),
            way == lanes::places(order@),
            dir == (if level { RouteDir::E } else { RouteDir::S }),
            before == old(links)@,
            named == old(connectors)@.len(),
            is_numbering(numbers@, all@),
            forall|p: Place| #[trigger] all@.contains(p) <==> pieces@.contains_key(p),
            layout::links_pieces(way, dir, texts),
            links_at(files@, texts, dir, way, k as nat) == Ok::<Seq<LinkModel>, BoardFailure>(models),
            models.len() == k,
            links@.len() == before.len() + k,
            connectors@.len() == named + k,
            forall|l: int| 0 <= l < before.len() ==> #[trigger] links@[l] == before[l],
            forall|l: int|
                0 <= l < k ==> is_placed_link(#[trigger] links@[before.len() + l], all@, way[l], dir, models[l]),
        decreases order.len() - k,
    {
        let here: (i32, i32) = order[k];
        let ghost place = way[k as int];
        assert(place == cellmap::place_of(here));
        assert(way.contains(place));
        let next: (i32, i32) = if level {
            (here.0 + 1, here.1)
        } else {
            (here.0, here.1 + 1)
        };
        assert(cellmap::place_of(next) == lanes::moved(place, dir));
        assert(texts.contains_key(place) && texts.contains_key(lanes::moved(place, dir)));
        assert(pieces@.contains_key(place) && pieces@.contains_key(lanes::moved(place, dir)));
        assert(all@.contains(place) && all@.contains(lanes::moved(place, dir)));
        let one: &'static str = match pieces.get(here) {
            Some(name) => name,
            None => "",
        };
        let other: &'static str = match pieces.get(next) {
            Some(name) => name,
            None => "",
        };
        let from: usize = match numbers.get(here) {
            Some(number) => number,
            None => 0,
        };
        let to: usize = match numbers.get(next) {
            Some(number) => number,
            None => 0,
        };
        let found: Result<PieceLink, BoardError> = if level {
            horizontal_candidates(stock, files, one, other)
        } else {
            vertical_candidates(stock, files, one, other)
        };
        assert(deltas::is_link_result(found, link_at(files@, texts, dir, place)));
        let link: PieceLink = match found {
            Ok(link) => link,
            Err(error) => {
                proof {
                    lemma_links_fail(files@, texts, dir, way, (k + 1) as nat, way.len());
                }
                return Err(error);
            },
        };
        let ghost model = link_at(files@, texts, dir, place)->Ok_0;
        let ghost earlier = links@;
        links.push(Link { from, to, deltas: ordered_places(&link.candidates, link.default) });
        connectors.push(link.connector);
        proof {
            models = models.push(model);
            assert forall|l: int| 0 <= l < k + 1 implies is_placed_link(
                #[trigger] links@[before.len() + l],
                all@,
                way[l],
                dir,
                models[l],
            ) by {
                if l < k {
                    assert(earlier[before.len() + l] == links@[before.len() + l]);
                }
            }
        }
        k += 1;
    }
    Ok(())
}

/// A link allows some places, and none far outside the range of coordinates.
proof fn lemma_link_places(files: &PatternFiles, pieces: Map<Place, Seq<char>>, dir: RouteDir, place: Place)
    requires
        dir == RouteDir::E || dir == RouteDir::S,
        link_at(files, pieces, dir, place) is Ok,
    ensures
        link_places(link_at(files, pieces, dir, place)->Ok_0).len() > 0,
        corridors::short(link_places(link_at(files, pieces, dir, place)->Ok_0), 0x8000_0000),
{
    let model = link_at(files, pieces, dir, place)->Ok_0;
    let left = pieces[place];
    let right = pieces[lanes::moved(place, dir)];
    if dir == RouteDir::E {
        deltas::law_preferred_place(
            crate::candidates::known_across(left, model.connector, right),
            model.default,
            true,
        );
    } else {
        deltas::law_preferred_place(deltas::known_below(left, right), model.default, false);
    }
    let list = link_places(model);
    assert forall|i: int| 0 <= i < list.len() implies -0x8000_0000 <= (#[trigger] list[i]).0 <= 0x8000_0000
        && -0x8000_0000 <= list[i].1 <= 0x8000_0000 by {}
}

/// The links of a placement problem are well-formed.
proof fn lemma_links_wf(
    files: &PatternFiles,
    pieces: Map<Place, Seq<char>>,
    links: Seq<Link>,
    first: int,
    order: Seq<Place>,
    places: Seq<Place>,
    dir: RouteDir,
)
    requires
        dir == RouteDir::E || dir == RouteDir::S,
        links_at(files, pieces, dir, places, places.len()) is Ok,
        are_placed_links(
            links,
            first,
            order,
            places,
            dir,
            links_at(files, pieces, dir, places, places.len())->Ok_0,
        ),
    ensures
        forall|l: int|
            first <= l < first + places.len() ==> (#[trigger] links[l]).from < order.len() && links[l].to < order.len()
                && links[l].from != links[l].to && links[l].deltas@.len() > 0 && corridors::short(
                links[l].deltas@,
                0x8000_0000,
            ),
{
    let models = links_at(files, pieces, dir, places, places.len())->Ok_0;
    assert forall|l: int| first <= l < first + places.len() implies (#[trigger] links[l]).from < order.len()
        && links[l].to < order.len() && links[l].from != links[l].to && links[l].deltas@.len() > 0
        && corridors::short(links[l].deltas@, 0x8000_0000) by {
        let j = l - first;
        assert(is_placed_link(links[first + j], order, places[j], dir, models[j]));
        lemma_link_there(files, pieces, dir, places, j, places.len());
        lemma_link_places(files, pieces, dir, places[j]);
    }
}

/// The places, the names and the kinds of all pieces.
struct PieceTable {
    places: Vec<(i32, i32)>,
    names: Vec<&'static str>,
    level: Vec<bool>,
    upright: Vec<bool>,
}

impl PieceTable {
    /// The table lists the pieces.
    spec fn lists(&self, pieces: Map<Place, Seq<char>>) -> bool {
        let order = cellmap::ordered(pieces.dom());
        &&& lanes::places(self.places@) == order
        &&& order.no_duplicates()
        &&& forall|p: Place| #[trigger] order.contains(p) <==> pieces.contains_key(p)
        &&& are_names(self.names@, names_at(pieces, order))
        &&& self.level@.len() == order.len()
        &&& self.upright@.len() == order.len()
        &&& forall|i: int|
            0 <= i < order.len() ==> #[trigger] self.level@[i] == (pieces[order[i]] == "horizontal wire tile"@)
        &&& forall|i: int|
            0 <= i < order.len() ==> #[trigger] self.upright@[i] == (pieces[order[i]] == "vertical wire tile"@)
    }

    fn new(pieces: &PlaceMap<&'static str>) -> (table: Self)
        ensures
            table.lists(routing::piece_texts(pieces@)),
    {
        let ghost texts = routing::piece_texts(pieces@);
        let ghost order = cellmap::ordered(texts.dom());
        let entries: Vec<((i32, i32), &'static str)> = pieces.entries();
        proof {
            assert(texts.dom() =~= pieces@.dom());
            cellmap::lemma_entries_ordered(entries@, pieces@);
        }
        let mut table: PieceTable = PieceTable {
            places: Vec::new(),
            names: Vec::new(),
            level: Vec::new(),
            upright: Vec::new(),
        };
        let mut k: usize = 0;
        while k < entries.len()
            invariant
                k <= entries@.len(),
                texts == routing::piece_texts(pieces@),
                order == cellmap::ordered(texts.dom()),
                order == cellmap::entry_places(entries@),
                cellmap::lists_map(entries@, pieces@),
                table.places@.len() == k,
                table.names@.len() == k,
                table.level@.len() == k,
                table.upright@.len() == k,
                forall|i: int| 0 <= i < k ==> cellmap::place_of(#[trigger] table.places@[i]) == order[i],
                forall|i: int| 0 <= i < k ==> (#[trigger] table.names@[i])@ == texts[order[i]],
                forall|i: int|
                    0 <= i < k ==> #[trigger] table.level@[i] == (texts[order[i]] == "horizontal wire tile"@),
                forall|i: int|
                    0 <= i < k ==> #[trigger] table.upright@[i] == (texts[order[i]] == "vertical wire tile"@),
            decreases entries.len() - k,
        {
            let (place, name): ((i32, i32), &'static str) = entries[k];
            assert(cellmap::entry_places(entries@)[k as int] == cellmap::place_of(place));
            assert(pieces@.contains_key(cellmap::place_of(entries@[k as int].0)));
            table.places.push(place);
            table.names.push(name);
            table.level.push(same_text(name, "horizontal wire tile"));
            table.upright.push(same_text(name, "vertical wire tile"));
            k += 1;
        }
        proof {
            assert(lanes::places(table.places@) =~= order);
            assert forall|i: int, j: int| 0 <= i < order.len() && 0 <= j < order.len() && i != j implies order[i]
                != order[j] by {
                assert(order[i] == cellmap::place_of(entries@[i].0) && order[j] == cellmap::place_of(entries@[j].0));
                if i < j {
                    assert(cellmap::place_less(cellmap::place_of(entries@[i].0), cellmap::place_of(entries@[j].0)));
                } else {
                    assert(cellmap::place_less(cellmap::place_of(entries@[j].0), cellmap::place_of(entries@[i].0)));
                }
            }
            assert forall|p: Place| #[trigger] order.contains(p) <==> texts.contains_key(p) by {
                if order.contains(p) {
                    let i = choose|i: int| 0 <= i < order.len() && order[i] == p;
                    assert(pieces@.contains_key(cellmap::place_of(entries@[i].0)));
                }
                if texts.contains_key(p) {
                    assert(pieces@.contains_key(p));
                    let i = choose|i: int| 0 <= i < entries@.len() && cellmap::place_of((#[trigger] entries@[i]).0) == p;
                    assert(order[i] == p);
                }
            }
        }
        table
    }
}

/// The orders of places list all of them, each once.
pub open spec fn lists_places(c: ConstructionModel, model: LayoutModel) -> bool {
    let order = cellmap::ordered(model.pieces.dom());
    let seam = routing::seam(c, model.cells, RouteDir::E);
    &&& order.no_duplicates()
    &&& forall|p: Place| #[trigger] order.contains(p) <==> model.pieces.contains_key(p)
    &&& forall|p: Place| #[trigger] lane_order(seam).contains(p) <==> seam.contains(p)
    &&& cellmap::lists_set(layout::seam_order(c, model, RouteDir::E), seam)
    &&& cellmap::lists_set(
        layout::seam_order(c, model, RouteDir::S),
        routing::seam(c, model.cells, RouteDir::S),
    )
}

/// Turns a layout into a placement problem.
fn placement_problem(
    stock: &PublishedLibrary,
    files: Ghost<&PatternFiles>,
    laid: &BoardLayout,
    c: Ghost<ConstructionModel>,
    model: Ghost<LayoutModel>,
) -> (result: Result<PlacementProblem, BoardError>)
    requires
        stock.wf(files@),
        layout::is_layout(*laid, c@, model@),
        model@.pieces.dom() !~= Set::<Place>::empty(),
    ensures
        is_problem_result(files@, c@, model@, result),
        lists_places(c@, model@),
{
    let ghost pieces = model@.pieces;
    let ghost seam = routing::seam(c@, model@.cells, RouteDir::E);
    let ghost order = cellmap::ordered(pieces.dom());
    let lane: Vec<(i32, i32)> = in_lane_order(&laid.wide, Ghost(seam));
    let ghost wide = lane_order(seam);
    let ghost high = layout::seam_order(c@, model@, RouteDir::S);
    proof {
        cellmap::lemma_ordered(lanes::places(laid.wide@), seam);
        cellmap::lemma_ordered(
            lanes::places(laid.high@),
            routing::seam(c@, model@.cells, RouteDir::S),
        );
    }
    let table: PieceTable = PieceTable::new(&laid.pieces);
    let numbers: PlaceMap<usize> = number_places(&table.places);
    let mut links: Vec<Link> = Vec::new();
    let mut connectors: Vec<&'static str> = Vec::new();
    let mut nothing: Vec<&'static str> = Vec::new();
    proof {
        assert(lanes::places(lane@) == wide);
        assert(layout::links_pieces(wide, RouteDir::E, pieces)) by {
            assert forall|p: Place| #[trigger] wide.contains(p) implies lanes::places(laid.wide@).contains(p) by {
                assert(seam.contains(p));
            }
        }
        assert forall|p: Place| #[trigger] order.contains(p) <==> laid.pieces@.contains_key(p) by {
            assert(pieces.contains_key(p) <==> laid.pieces@.contains_key(p));
        }
    }
    match push_links(
        &mut links,
        stock,
        files,
        &laid.pieces,
        &numbers,
        Ghost(order),
        &lane,
        true,
        &mut connectors,
    ) {
        Ok(_) => {},
        Err(error) => {
            return Err(error);
        },
    }
    let across: usize = links.len();
    let ghost first = links@;
    match push_links(
        &mut links,
        stock,
        files,
        &laid.pieces,
        &numbers,
        Ghost(order),
        &laid.high,
        false,
        &mut nothing,
    ) {
        Ok(_) => {},
        Err(error) => {
            return Err(error);
        },
    }
    let ghost wide_links = links_at(files@, pieces, RouteDir::E, wide, wide.len())->Ok_0;
    proof {
        assert forall|l: int| 0 <= l < wide.len() implies is_placed_link(
            #[trigger] links@[0 + l],
            order,
            wide[l],
            RouteDir::E,
            wide_links[l],
        ) by {
            assert(links@[l] == first[0 + l]);
        }
        lemma_links_wf(files@, pieces, links@, 0, order, wide, RouteDir::E);
        lemma_links_wf(files@, pieces, links@, wide.len() as int, order, high, RouteDir::S);
    }
    let nodes: usize = table.places.len();
    let problem: PlacementProblem = PlacementProblem {
        nodes,
        links,
        across,
        level: table.level,
        upright: table.upright,
        places: table.places,
        names: table.names,
        connectors,
        limit: 0x8000_0000,
    };
    proof {
        assert(nodes == order.len());
        let p = choose|p: Place| pieces.dom().contains(p);
        assert(pieces.dom().contains(p)) by {
            if forall|q: Place| !pieces.dom().contains(q) {
                assert(pieces.dom() =~= Set::<Place>::empty());
            }
        }
        assert(order.contains(p));
        lemma_fewer(wide, order);
        let high_order = lanes::places(laid.high@);
        assert(high_order.no_duplicates()) by {
            assert forall|i: int, j: int| 0 <= i < high_order.len() && 0 <= j < high_order.len() && i != j implies high_order[i]
                != high_order[j] by {
                if i < j {
                    assert(cellmap::place_less(high_order[i], high_order[j]));
                } else {
                    assert(cellmap::place_less(high_order[j], high_order[i]));
                }
            }
        }
        lemma_fewer(high_order, order);
        assert forall|l: int| 0 <= l < problem.links@.len() implies problem.link_wf(#[trigger] problem.links@[l]) by {
            assert(corridors::short(links@[l].deltas@, 0x8000_0000));
        }
    }
    Ok(problem)
}

/// A pattern at its place on the board.
pub struct PieceModel {
    pub name: Seq<char>,
    pub origin: Vector,
    pub rows: Seq<Seq<u8>>,
}

/// The pattern with a name, at a place.
pub open spec fn piece_model(files: &PatternFiles, name: Seq<char>, origin: Vector) -> PieceModel {
    PieceModel { name, origin, rows: stock::rows_named(files, name)->Some_0 }
}

/// The upper left corner of all pieces.
pub open spec fn low_corner(origins: Seq<Vector>) -> Vector {
    (
        lanes::least(Seq::new(origins.len(), |i: int| origins[i].0)),
        lanes::least(Seq::new(origins.len(), |i: int| origins[i].1)),
    )
}

/// The pieces, moved to the corner of the board.
pub open spec fn tile_pieces(files: &PatternFiles, names: Seq<Seq<char>>, origins: Seq<Vector>) -> Seq<PieceModel> {
    Seq::new(
        origins.len(),
        |i: int| piece_model(files, names[i], corridors::minus(origins[i], low_corner(origins))),
    )
}

/// The first candidate whose piece stands at a place.
pub open spec fn first_fitting(
    list: Seq<HorizontalPlacementCandidate>,
    gap: Vector,
) -> HorizontalPlacementCandidate
    decreases list.len(),
{
    if list.len() <= 1 || deltas::pair_vector(list[0].right_delta) == gap {
        list[0]
    } else {
        first_fitting(list.drop_first(), gap)
    }
}

/// The connector between the piece at a place and the piece in its east.
pub open spec fn connector_piece(
    files: &PatternFiles,
    pieces: Map<Place, Seq<char>>,
    origins: Seq<Vector>,
    place: Place,
) -> PieceModel {
    let order = cellmap::ordered(pieces.dom());
    let left = origins[order.index_of(place)];
    let right = origins[order.index_of(lanes::moved(place, RouteDir::E))];
    let link = link_at(files, pieces, RouteDir::E, place)->Ok_0;
    let candidate = first_fitting(link.candidates, corridors::minus(right, left));
    piece_model(
        files,
        link.connector,
        corridors::minus(
            corridors::plus(left, deltas::pair_vector(candidate.connector_delta)),
            low_corner(origins),
        ),
    )
}

/// The connectors at places.
pub open spec fn connector_pieces(
    files: &PatternFiles,
    pieces: Map<Place, Seq<char>>,
    origins: Seq<Vector>,
    wide: Seq<Place>,
) -> Seq<PieceModel> {
    Seq::new(wide.len(), |j: int| connector_piece(files, pieces, origins, wide[j]))
}

/// A piece lies left of the board, or above it.
pub open spec fn is_outside(piece: PieceModel) -> bool {
    piece.origin.0 < 0 || piece.origin.1 < 0
}

/// The first of the first `k` pieces that lies outside the board.
pub open spec fn first_outside(list: Seq<PieceModel>, k: nat) -> Option<Seq<char>>
    decreases k,
{
    if k == 0 {
        None
    } else {
        match first_outside(list, (k - 1) as nat) {
            Some(name) => Some(name),
            None => if is_outside(list[k - 1]) {
                Some(list[k - 1].name)
            } else {
                None
            },
        }
    }
}

/// The first of the first `k` names that the library does not have.
pub open spec fn first_unknown(names: Seq<Seq<char>>, k: nat) -> Option<Seq<char>>
    decreases k,
{
    if k == 0 {
        None
    } else {
        match first_unknown(names, (k - 1) as nat) {
            Some(name) => Some(name),
            None => if library::spec_named(names[k - 1]) is None {
                Some(names[k - 1])
            } else {
                None
            },
        }
    }
}

/// The width that the pieces take.
pub open spec fn full_width(list: Seq<PieceModel>) -> int {
    lanes::greatest(Seq::new(list.len(), |i: int| list[i].origin.0 + list[i].rows[0].len()))
}

/// The height that the pieces take.
pub open spec fn full_height(list: Seq<PieceModel>) -> int {
    lanes::greatest(Seq::new(list.len(), |i: int| list[i].origin.1 + list[i].rows.len()))
}

/// A piece brings a cell of the board to life.
pub open spec fn lights(piece: PieceModel, y: int, x: int) -> bool {
    let row = y - piece.origin.1;
    let column = x - piece.origin.0;
    0 <= row < piece.rows.len() && 0 <= column < piece.rows[0].len() && piece.rows[row][column] > 0
}

/// Some of the first `k` pieces brings a cell of the board to life.
pub open spec fn lit(list: Seq<PieceModel>, k: nat, y: int, x: int) -> bool {
    exists|i: int| 0 <= i < k && lights(#[trigger] list[i], y, x)
}

/// A pattern on a board.
#[derive(Debug, Clone)]
pub struct BoardPiece {
    pub spec_name: String,
    pub origin_x: usize,
    pub origin_y: usize,
    pub width: usize,
    pub height: usize,
}

/// A board: the patterns on it, and the cells that they bring to life together.
#[derive(Debug, Clone)]
pub struct PublishedBoard {
    pub pieces: Vec<BoardPiece>,
    pub target: Grid,
}

impl PublishedBoard {
    /// The cells of the board, as text.
    pub fn to_grid_string(&self) -> (text: String)
        ensures
            text@ == crate::grid::grid_text(self.target@),
    {
        grid_to_string(&self.target)
    }
}

/// The pattern is at its place.
pub open spec fn is_board_piece(piece: BoardPiece, model: PieceModel) -> bool {
    &&& piece.spec_name@ == model.name
    &&& piece.origin_x == model.origin.0
    &&& piece.origin_y == model.origin.1
    &&& piece.width == model.rows[0].len()
    &&& piece.height == model.rows.len()
}

/// The board holds the pieces.
pub open spec fn is_board(board: PublishedBoard, list: Seq<PieceModel>) -> bool {
    &&& board.pieces@.len() == list.len()
    &&& forall|i: int| 0 <= i < list.len() ==> is_board_piece(#[trigger] board.pieces@[i], list[i])
    &&& board.target.wf()
    &&& board.target.width == full_width(list)
    &&& board.target.height == full_height(list)
    &&& board.target.boundary == BoundaryCondition::Dead
    &&& forall|y: int, x: int|
        0 <= y < board.target.height && 0 <= x < board.target.width ==> #[trigger] board.target@[y][x] == lit(
            list,
            list.len(),
            y,
            x,
        )
}

/// A result is the failure.
pub open spec fn board_fails(result: Result<PublishedBoard, BoardError>, failure: BoardFailure) -> bool {
    result matches Err(error) && error@ == failure
}

/// The result of putting the pieces where they have been placed.
pub open spec fn is_materialised(
    files: &PatternFiles,
    pieces: Map<Place, Seq<char>>,
    wide: Seq<Place>,
    origins: Seq<Vector>,
    result: Result<PublishedBoard, BoardError>,
) -> bool {
    let order = cellmap::ordered(pieces.dom());
    let connectors = connector_pieces(files, pieces, origins, wide);
    let all = tile_pieces(files, names_at(pieces, order), origins) + connectors;
    match first_unknown(names_at(pieces, order), order.len()) {
        Some(name) => board_fails(result, BoardFailure::UnknownSpec(name)),
        None => match first_outside(connectors, connectors.len()) {
            Some(name) => board_fails(result, BoardFailure::ConnectorOutside(name)),
            None => if full_width(all) > i32::MAX || full_height(all) > i32::MAX {
                board_fails(result, BoardFailure::TooLarge)
            } else {
                result matches Ok(board) && is_board(board, all)
            },
        },
    }
}

pub(crate) proof fn lemma_least_is(values: Seq<int>, low: int)
    requires
        forall|i: int| 0 <= i < values.len() ==> low <= #[trigger] values[i],
        exists|i: int| 0 <= i < values.len() && #[trigger] values[i] == low,
    ensures
        lanes::least(values) == low,
    decreases values.len(),
{
    let rest = values.drop_last();
    let i = choose|i: int| 0 <= i < values.len() && #[trigger] values[i] == low;
    assert(low <= values[values.len() - 1]);
    if values.len() > 1 {
        assert forall|j: int| 0 <= j < rest.len() implies low <= #[trigger] rest[j] by {
            assert(rest[j] == values[j]);
        }
        if i < rest.len() {
            assert(rest[i] == low);
            lemma_least_is(rest, low);
        } else {
            lemma_least_above(rest, low);
        }
    }
}

proof fn lemma_least_above(values: Seq<int>, low: int)
    requires
        values.len() > 0,
        forall|i: int| 0 <= i < values.len() ==> low <= #[trigger] values[i],
    ensures
        low <= lanes::least(values),
    decreases values.len(),
{
    let rest = values.drop_last();
    assert(low <= values[values.len() - 1]);
    if values.len() > 1 {
        assert forall|j: int| 0 <= j < rest.len() implies low <= #[trigger] rest[j] by {
            assert(rest[j] == values[j]);
        }
        lemma_least_above(rest, low);
    }
}

/// The upper left corner of all pieces.
fn find_low_corner(origins: &Vec<(i128, i128)>) -> (low: (i128, i128))
    requires
        origins@.len() > 0,
        corridors::short(origins@, 0x1f_ffff_ffff_ffff_ffff_ffff_ffff),
    ensures
        corridors::vector(low) == low_corner(placement::vectors(origins@)),
        -0x1f_ffff_ffff_ffff_ffff_ffff_ffff <= low.0 <= 0x1f_ffff_ffff_ffff_ffff_ffff_ffff,
        -0x1f_ffff_ffff_ffff_ffff_ffff_ffff <= low.1 <= 0x1f_ffff_ffff_ffff_ffff_ffff_ffff,
        forall|i: int| 0 <= i < origins@.len() ==> low.0 <= (#[trigger] origins@[i]).0 && low.1 <= origins@[i].1,
{
    let mut low: (i128, i128) = origins[0];
    let ghost mut at: (int, int) = (0, 0);
    let mut k: usize = 1;
    while k < origins.len()
        invariant
            1 <= k <= origins@.len(),
            0 <= at.0 < k,
            0 <= at.1 < k,
            origins@[at.0].0 == low.0,
            origins@[at.1].1 == low.1,
            forall|i: int| 0 <= i < k ==> low.0 <= (#[trigger] origins@[i]).0 && low.1 <= origins@[i].1,
        decreases origins.len() - k,
    {
        let here: (i128, i128) = origins[k];
        if here.0 < low.0 {
            low = (here.0, low.1);
            proof {
                at = (k as int, at.1);
            }
        }
        if here.1 < low.1 {
            low = (low.0, here.1);
            proof {
                at = (at.0, k as int);
            }
        }
        k += 1;
    }
    proof {
        let all = placement::vectors(origins@);
        let xs = Seq::new(all.len(), |i: int| all[i].0);
        let ys = Seq::new(all.len(), |i: int| all[i].1);
        assert(xs[at.0] == low.0);
        assert(ys[at.1] == low.1);
        lemma_least_is(xs, low.0 as int);
        lemma_least_is(ys, low.1 as int);
        assert(-0x1f_ffff_ffff_ffff_ffff_ffff_ffff <= origins@[at.0].0 <= 0x1f_ffff_ffff_ffff_ffff_ffff_ffff);
        assert(-0x1f_ffff_ffff_ffff_ffff_ffff_ffff <= origins@[at.1].1 <= 0x1f_ffff_ffff_ffff_ffff_ffff_ffff);
    }
    low
}

/// A pattern at its place, before the size of the board is known.
struct Stamp {
    name: &'static str,
    pattern: usize,
    x: i128,
    y: i128,
}

/// The stamp is the piece.
spec fn is_stamp(stamp: Stamp, stock: &PublishedLibrary, model: PieceModel) -> bool {
    &&& stamp.pattern < stock.patterns@.len()
    &&& stamp.name@ == model.name
    &&& stamp.x == model.origin.0
    &&& stamp.y == model.origin.1
    &&& stock.patterns@[stamp.pattern as int]@ == model.rows
    &&& stock.patterns@[stamp.pattern as int].wf()
    &&& model.rows.len() > 0
    &&& stock.patterns@[stamp.pattern as int].width == model.rows[0].len()
}

/// The stamps are the pieces.
spec fn are_stamps(stamps: Seq<Stamp>, stock: &PublishedLibrary, list: Seq<PieceModel>) -> bool {
    &&& stamps.len() == list.len()
    &&& forall|i: int| 0 <= i < list.len() ==> is_stamp(#[trigger] stamps[i], stock, list[i])
}

/// All pieces lie on the board, and not too far away.
spec fn all_near(stamps: Seq<Stamp>) -> bool {
    forall|i: int|
        0 <= i < stamps.len() ==> 0 <= (#[trigger] stamps[i]).x <= 0x7f_ffff_ffff_ffff_ffff_ffff_ffff && 0 <= stamps[i].y
            <= 0x7f_ffff_ffff_ffff_ffff_ffff_ffff
}

/// The stamps of the placed pieces.
fn stamp_tiles(
    stock: &PublishedLibrary,
    files: Ghost<&PatternFiles>,
    names: &Vec<&'static str>,
    texts: Ghost<Seq<Seq<char>>>,
    origins: &Vec<(i128, i128)>,
    low: (i128, i128),
) -> (result: Result<Vec<Stamp>, BoardError>)
    requires
        stock.wf(files@),
        are_names(names@, texts@),
        names@.len() == origins@.len(),
        corridors::short(origins@, 0x1f_ffff_ffff_ffff_ffff_ffff_ffff),
        corridors::vector(low) == low_corner(placement::vectors(origins@)),
        -0x1f_ffff_ffff_ffff_ffff_ffff_ffff <= low.0 <= 0x1f_ffff_ffff_ffff_ffff_ffff_ffff,
        -0x1f_ffff_ffff_ffff_ffff_ffff_ffff <= low.1 <= 0x1f_ffff_ffff_ffff_ffff_ffff_ffff,
        forall|i: int| 0 <= i < origins@.len() ==> low.0 <= (#[trigger] origins@[i]).0 && low.1 <= origins@[i].1,
    ensures
        match first_unknown(texts@, texts@.len()) {
            Some(name) => result matches Err(error) && error@ == BoardFailure::UnknownSpec(name),
            None => result matches Ok(stamps) && are_stamps(
                stamps@,
                stock,
                tile_pieces(files@, texts@, placement::vectors(origins@)),
            ) && all_near(stamps@),
        },
{
    let ghost vectors = placement::vectors(origins@);
    let ghost list = tile_pieces(files@, texts@, vectors);
    let mut stamps: Vec<Stamp> = Vec::new();
    let mut k: usize = 0;
    while k < names.len()
        invariant
            k <= names@.len(),
            stock.wf(files@),
            are_names(names@, texts@),
            names@.len() == origins@.len(),
            corridors::short(origins@, 0x1f_ffff_ffff_ffff_ffff_ffff_ffff),
            vectors == placement::vectors(origins@),
            list == tile_pieces(files@, texts@, vectors),
            corridors::vector(low) == low_corner(vectors),
            -0x1f_ffff_ffff_ffff_ffff_ffff_ffff <= low.0 <= 0x1f_ffff_ffff_ffff_ffff_ffff_ffff,
            -0x1f_ffff_ffff_ffff_ffff_ffff_ffff <= low.1 <= 0x1f_ffff_ffff_ffff_ffff_ffff_ffff,
            forall|i: int| 0 <= i < origins@.len() ==> low.0 <= (#[trigger] origins@[i]).0 && low.1 <= origins@[i].1,
            stamps@.len() == k,
            first_unknown(texts@, k as nat) is None,
            forall|i: int| 0 <= i < k ==> is_stamp(#[trigger] stamps@[i], stock, list[i]),
            all_near(stamps@),
        decreases names.len() - k,
    {
        let name: &'static str = names[k];
        assert(name@ == texts@[k as int]);
        let here: (i128, i128) = origins[k];
        assert(low.0 <= origins@[k as int].0 && low.1 <= origins@[k as int].1);
        match stock.find(files, name) {
            Some(pattern) => {
                stamps.push(Stamp { name, pattern, x: here.0 - low.0, y: here.1 - low.1 });
                assert(is_stamp(stamps@[k as int], stock, list[k as int]));
            },
            None => {
                proof {
                    lemma_unknown_first(texts@, (k + 1) as nat, texts@.len());
                }
                return Err(BoardError::UnknownSpec { name });
            },
        }
        k += 1;
    }
    Ok(stamps)
}

proof fn lemma_unknown_first(names: Seq<Seq<char>>, j: nat, k: nat)
    requires
        j <= k,
        first_unknown(names, j) is Some,
    ensures
        first_unknown(names, k) == first_unknown(names, j),
    decreases k,
{
    if j < k {
        lemma_unknown_first(names, j, (k - 1) as nat);
    }
}

/// The first candidate whose piece stands at a place, if one does.
fn find_fitting(list: &Vec<HorizontalPlacementCandidate>, gap: (i128, i128)) -> (candidate: HorizontalPlacementCandidate)
    requires
        list@.len() > 0,
    ensures
        candidate == first_fitting(list@, corridors::vector(gap)),
{
    let ghost wanted = corridors::vector(gap);
    let mut k: usize = 0;
    assert(list@.skip(0) =~= list@);
    while k < list.len() - 1
        invariant
            k < list@.len(),
            wanted == corridors::vector(gap),
            first_fitting(list@, wanted) == first_fitting(list@.skip(k as int), wanted),
        decreases list.len() - k,
    {
        let there: (i32, i32) = list[k].right_delta;
        if there.0 as i128 == gap.0 && there.1 as i128 == gap.1 {
            return list[k];
        }
        assert(list@.skip(k as int).drop_first() =~= list@.skip(k + 1));
        k += 1;
    }
    list[k]
}

/// The stamps of the connectors.
fn stamp_connectors(
    stock: &PublishedLibrary,
    files: Ghost<&PatternFiles>,
    laid: &BoardLayout,
    pieces: Ghost<Map<Place, Seq<char>>>,
    numbers: &PlaceMap<usize>,
    origins: &Vec<(i128, i128)>,
    low: (i128, i128),
) -> (result: Result<Vec<Stamp>, BoardError>)
    requires
        stock.wf(files@),
        routing::piece_texts(laid.pieces@) == pieces@,
        layout::links_pieces(lanes::places(laid.wide@), RouteDir::E, pieces@),
        is_numbering(numbers@, cellmap::ordered(pieces@.dom())),
        cellmap::ordered(pieces@.dom()).no_duplicates(),
        forall|p: Place| #[trigger] cellmap::ordered(pieces@.dom()).contains(p) <==> pieces@.contains_key(p),
        origins@.len() == cellmap::ordered(pieces@.dom()).len(),
        corridors::short(origins@, 0x1f_ffff_ffff_ffff_ffff_ffff_ffff),
        corridors::vector(low) == low_corner(placement::vectors(origins@)),
        -0x1f_ffff_ffff_ffff_ffff_ffff_ffff <= low.0 <= 0x1f_ffff_ffff_ffff_ffff_ffff_ffff,
        -0x1f_ffff_ffff_ffff_ffff_ffff_ffff <= low.1 <= 0x1f_ffff_ffff_ffff_ffff_ffff_ffff,
        forall|p: Place| #[trigger]
            lanes::places(laid.wide@).contains(p) ==> link_at(files@, pieces@, RouteDir::E, p) is Ok,
    ensures
        ({
            let list = connector_pieces(
                files@,
                pieces@,
                placement::vectors(origins@),
                lanes::places(laid.wide@),
            );
            match first_outside(list, list.len()) {
                Some(name) => result matches Err(error) && error@ == BoardFailure::ConnectorOutside(name),
                None => result matches Ok(stamps) && are_stamps(stamps@, stock, list) && all_near(stamps@),
            }
        }),
{
    let ghost order = cellmap::ordered(pieces@.dom());
    let ghost way = lanes::places(laid.wide@);
    let ghost vectors = placement::vectors(origins@);
    let ghost list = connector_pieces(files@, pieces@, vectors, way);
    let mut stamps: Vec<Stamp> = Vec::new();
    let mut k: usize = 0;
    while k < laid.wide.len()
        invariant
            k <= laid.wide@.len(),
            stock.wf(files@),
            routing::piece_texts(laid.pieces@) == pieces@,
            order == cellmap::ordered(pieces@.dom()),
            way == lanes::places(laid.wide@),
            vectors == placement::vectors(origins@),
            list == connector_pieces(files@, pieces@, vectors, way),
            layout::links_pieces(way, RouteDir::E, pieces@),
            is_numbering(numbers@, order),
            order.no_duplicates(),
            forall|p: Place| #[trigger] order.contains(p) <==> pieces@.contains_key(p),
            origins@.len() == order.len(),
            corridors::short(origins@, 0x1f_ffff_ffff_ffff_ffff_ffff_ffff),
            corridors::vector(low) == low_corner(vectors),
            -0x1f_ffff_ffff_ffff_ffff_ffff_ffff <= low.0 <= 0x1f_ffff_ffff_ffff_ffff_ffff_ffff,
            -0x1f_ffff_ffff_ffff_ffff_ffff_ffff <= low.1 <= 0x1f_ffff_ffff_ffff_ffff_ffff_ffff,
            forall|p: Place| #[trigger] way.contains(p) ==> link_at(files@, pieces@, RouteDir::E, p) is Ok,
            stamps@.len() == k,
            first_outside(list, k as nat) is None,
            forall|i: int| 0 <= i < k ==> is_stamp(#[trigger] stamps@[i], stock, list[i]),
            all_near(stamps@),
        decreases laid.wide.len() - k,
    {
        let left: (i32, i32) = laid.wide[k];
        let ghost place = way[k as int];
        assert(place == cellmap::place_of(left));
        assert(way.contains(place));
        let right: (i32, i32) = (left.0 + 1, left.1);
        let ghost next = lanes::moved(place, RouteDir::E);
        assert(cellmap::place_of(right) == next);
        assert(laid.pieces@.contains_key(place) && laid.pieces@.contains_key(next));
        assert(order.contains(place) && order.contains(next));
        let left_name: &'static str = match laid.pieces.get(left) {
            Some(name) => name,
            None => "",
        };
        let right_name: &'static str = match laid.pieces.get(right) {
            Some(name) => name,
            None => "",
        };
        let from: usize = match numbers.get(left) {
            Some(number) => number,
            None => 0,
        };
        let to: usize = match numbers.get(right) {
            Some(number) => number,
            None => 0,
        };
        proof {
            assert(order[order.index_of(place)] == place);
            assert(order[order.index_of(next)] == next);
            assert(order.index_of(place) == from);
            assert(order.index_of(next) == to);
        }
        let link: PieceLink = match horizontal_candidates(stock, files, left_name, right_name) {
            Ok(link) => link,
            Err(error) => {
                return Err(error);
            },
        };
        let ghost model = link_at(files@, pieces@, RouteDir::E, place)->Ok_0;
        proof {
            lemma_candidates_there(files@, pieces@, place);
        }
        let start: (i128, i128) = origins[from];
        let end: (i128, i128) = origins[to];
        assert(-0x1f_ffff_ffff_ffff_ffff_ffff_ffff <= origins@[from as int].0 <= 0x1f_ffff_ffff_ffff_ffff_ffff_ffff);
        assert(-0x1f_ffff_ffff_ffff_ffff_ffff_ffff <= origins@[to as int].0 <= 0x1f_ffff_ffff_ffff_ffff_ffff_ffff);
        let candidate: HorizontalPlacementCandidate = find_fitting(
            &link.candidates,
            (end.0 - start.0, end.1 - start.1),
        );
        let x: i128 = start.0 + candidate.connector_delta.0 as i128 - low.0;
        let y: i128 = start.1 + candidate.connector_delta.1 as i128 - low.1;
        assert(list[k as int] == piece_model(files@, model.connector, (x as int, y as int)));
        if x < 0 || y < 0 {
            proof {
                lemma_outside_first(list, (k + 1) as nat, list.len());
            }
            return Err(BoardError::ConnectorOutside { name: link.connector });
        }
        match stock.find(files, link.connector) {
            Some(pattern) => {
                stamps.push(Stamp { name: link.connector, pattern, x, y });
                assert(is_stamp(stamps@[k as int], stock, list[k as int]));
            },
            None => {
                return Err(BoardError::UnknownSpec { name: link.connector });
            },
        }
        k += 1;
    }
    Ok(stamps)
}

proof fn lemma_outside_first(list: Seq<PieceModel>, j: nat, k: nat)
    requires
        j <= k,
        first_outside(list, j) is Some,
    ensures
        first_outside(list, k) == first_outside(list, j),
    decreases k,
{
    if j < k {
        lemma_outside_first(list, j, (k - 1) as nat);
    }
}

/// A link has candidates, and its connector is known.
proof fn lemma_candidates_there(files: &PatternFiles, pieces: Map<Place, Seq<char>>, place: Place)
    requires
        link_at(files, pieces, RouteDir::E, place) is Ok,
    ensures
        link_at(files, pieces, RouteDir::E, place)->Ok_0.candidates.len() > 0,
        stock::rows_named(files, link_at(files, pieces, RouteDir::E, place)->Ok_0.connector) is Some,
{
    let model = link_at(files, pieces, RouteDir::E, place)->Ok_0;
    let left = pieces[place];
    let right = pieces[lanes::moved(place, RouteDir::E)];
    let known = crate::candidates::known_across(left, model.connector, right);
    deltas::law_preferred_place(known, model.default, true);
    assert(model.candidates == deltas::all_candidates(known, model.default, true));
    if model.candidates.len() == 0 {
        assert(deltas::nearest_first(model.candidates, model.default, 0).len() == 0);
    }
}

/// The width and the height that the pieces take.
fn full_extent(stock: &PublishedLibrary, stamps: &Vec<Stamp>, list: Ghost<Seq<PieceModel>>) -> (extent: (i128, i128))
    requires
        are_stamps(stamps@, stock, list@),
        all_near(stamps@),
    ensures
        extent.0 == full_width(list@),
        extent.1 == full_height(list@),
        extent.0 >= 0,
        extent.1 >= 0,
        forall|i: int|
            0 <= i < list@.len() ==> (#[trigger] list@[i]).origin.0 + list@[i].rows[0].len() <= extent.0
                && list@[i].origin.1 + list@[i].rows.len() <= extent.1,
{
    let ghost rights = Seq::new(list@.len(), |i: int| list@[i].origin.0 + list@[i].rows[0].len());
    let ghost bottoms = Seq::new(list@.len(), |i: int| list@[i].origin.1 + list@[i].rows.len());
    let mut wide: i128 = 0;
    let mut high: i128 = 0;
    let mut k: usize = 0;
    while k < stamps.len()
        invariant
            k <= stamps@.len(),
            are_stamps(stamps@, stock, list@),
            all_near(stamps@),
            rights == Seq::new(list@.len(), |i: int| list@[i].origin.0 + list@[i].rows[0].len()),
            bottoms == Seq::new(list@.len(), |i: int| list@[i].origin.1 + list@[i].rows.len()),
            wide == lanes::greatest(rights.take(k as int)),
            high == lanes::greatest(bottoms.take(k as int)),
            wide >= 0,
            high >= 0,
            forall|i: int|
                0 <= i < k ==> (#[trigger] list@[i]).origin.0 + list@[i].rows[0].len() <= wide && list@[i].origin.1
                    + list@[i].rows.len() <= high,
        decreases stamps.len() - k,
    {
        let stamp: &Stamp = &stamps[k];
        assert(is_stamp(stamps@[k as int], stock, list@[k as int]));
        assert(0 <= stamps@[k as int].x <= 0x7f_ffff_ffff_ffff_ffff_ffff_ffff);
        let pattern: &PublishedPattern = &stock.patterns[stamp.pattern];
        assert(pattern@.len() == pattern.height);
        let right: i128 = stamp.x + pattern.width as i128;
        let bottom: i128 = stamp.y + pattern.height as i128;
        proof {
            assert(rights.take(k + 1).drop_last() =~= rights.take(k as int));
            assert(bottoms.take(k + 1).drop_last() =~= bottoms.take(k as int));
            assert(rights.take(k + 1).last() == right);
            assert(bottoms.take(k + 1).last() == bottom);
        }
        if right > wide {
            wide = right;
        }
        if bottom > high {
            high = bottom;
        }
        k += 1;
    }
    proof {
        assert(rights.take(k as int) =~= rights);
        assert(bottoms.take(k as int) =~= bottoms);
    }
    (wide, high)
}

/// The cells of the first `rows` rows, and in the next row those of the first `columns`
/// columns, that a pattern brings to life.
spec fn lights_part(rows: Seq<Seq<u8>>, oy: int, ox: int, done: int, columns: int, y: int, x: int) -> bool {
    let row = y - oy;
    let column = x - ox;
    0 <= row < rows.len() && 0 <= column < rows[0].len() && rows[row][column] > 0 && (row < done || (row == done && column
        < columns))
}

/// Brings the cells of a pattern to life.
fn stamp_pattern(target: &mut Grid, pattern: &PublishedPattern, ox: usize, oy: usize)
    requires
        old(target).wf(),
        pattern.wf(),
        pattern@.len() > 0,
        pattern.width == pattern@[0].len(),
        ox + pattern.width <= old(target).width,
        oy + pattern.height <= old(target).height,
    ensures
        final(target).wf(),
        final(target).width == old(target).width,
        final(target).height == old(target).height,
        final(target).boundary == old(target).boundary,
        forall|y: int, x: int|
            0 <= y < old(target).height && 0 <= x < old(target).width ==> #[trigger] final(target)@[y][x] == (old(
                target,
            )@[y][x] || lights_part(pattern@, oy as int, ox as int, pattern.height as int, 0, y, x)),
{
    let ghost before = *target;
    let ghost rows = pattern@;
    let mut r: usize = 0;
    while r < pattern.cells.len()
        invariant
            r <= pattern.cells@.len(),
            before == *old(target),
            rows == pattern@,
            pattern.wf(),
            rows.len() > 0,
            pattern.width == rows[0].len(),
            target.wf(),
            target.width == before.width,
            target.height == before.height,
            target.boundary == before.boundary,
            ox + pattern.width <= target.width,
            oy + pattern.height <= target.height,
            forall|y: int, x: int|
                0 <= y < target.height && 0 <= x < target.width ==> #[trigger] target@[y][x] == (before@[y][x]
                    || lights_part(rows, oy as int, ox as int, r as int, 0, y, x)),
        decreases pattern.cells.len() - r,
    {
        assert(rows[r as int] == pattern.cells@[r as int]@);
        assert(rows[r as int].len() == pattern.width);
        let mut q: usize = 0;
        while q < pattern.cells[r].len()
            invariant
                r < pattern.cells@.len(),
                rows == pattern@,
                pattern.wf(),
                rows.len() > 0,
                rows[r as int] == pattern.cells@[r as int]@,
                rows[r as int].len() == pattern.width,
                pattern.width == rows[0].len(),
                q <= pattern.width,
                target.wf(),
                target.width == before.width,
                target.height == before.height,
                target.boundary == before.boundary,
                ox + pattern.width <= target.width,
                oy + pattern.height <= target.height,
                forall|y: int, x: int|
                    0 <= y < target.height && 0 <= x < target.width ==> #[trigger] target@[y][x] == (before@[y][x]
                        || lights_part(rows, oy as int, ox as int, r as int, q as int, y, x)),
            decreases pattern.width - q,
        {
            let ghost earlier = target@;
            if pattern.cells[r][q] > 0 {
                target.set(oy + r, ox + q, true);
            }
            proof {
                assert forall|y: int, x: int|
                    0 <= y < target.height && 0 <= x < target.width implies #[trigger] target@[y][x] == (before@[y][x]
                    || lights_part(rows, oy as int, ox as int, r as int, q + 1, y, x)) by {
                    assert(earlier[y][x] == (before@[y][x] || lights_part(
                        rows,
                        oy as int,
                        ox as int,
                        r as int,
                        q as int,
                        y,
                        x,
                    )));
                }
            }
            q += 1;
        }
        r += 1;
    }
}

/// Brings the cells of all pieces to life.
fn stamp_all(
    stock: &PublishedLibrary,
    stamps: &Vec<Stamp>,
    list: Ghost<Seq<PieceModel>>,
    wide: usize,
    high: usize,
) -> (board: PublishedBoard)
    requires
        are_stamps(stamps@, stock, list@),
        all_near(stamps@),
        wide == full_width(list@),
        high == full_height(list@),
        forall|i: int|
            0 <= i < list@.len() ==> (#[trigger] list@[i]).origin.0 + list@[i].rows[0].len() <= wide
                && list@[i].origin.1 + list@[i].rows.len() <= high,
    ensures
        is_board(board, list@),
{
    let mut pieces: Vec<BoardPiece> = Vec::new();
    let mut target: Grid = Grid::new(wide, high, BoundaryCondition::Dead);
    let mut k: usize = 0;
    while k < stamps.len()
        invariant
            k <= stamps@.len(),
            are_stamps(stamps@, stock, list@),
            all_near(stamps@),
            forall|i: int|
                0 <= i < list@.len() ==> (#[trigger] list@[i]).origin.0 + list@[i].rows[0].len() <= wide
                    && list@[i].origin.1 + list@[i].rows.len() <= high,
            target.wf(),
            target.width == wide,
            target.height == high,
            target.boundary == BoundaryCondition::Dead,
            pieces@.len() == k,
            forall|i: int| 0 <= i < k ==> is_board_piece(#[trigger] pieces@[i], list@[i]),
            forall|y: int, x: int|
                0 <= y < high && 0 <= x < wide ==> #[trigger] target@[y][x] == lit(list@, k as nat, y, x),
        decreases stamps.len() - k,
    {
        let stamp: &Stamp = &stamps[k];
        let ghost model = list@[k as int];
        assert(is_stamp(stamps@[k as int], stock, model));
        assert(0 <= stamps@[k as int].x <= 0x7f_ffff_ffff_ffff_ffff_ffff_ffff);
        assert(model.origin.0 + model.rows[0].len() <= wide);
        let pattern: &PublishedPattern = &stock.patterns[stamp.pattern];
        assert(pattern@.len() == pattern.height);
        let origin_x: usize = stamp.x as usize;
        let origin_y: usize = stamp.y as usize;
        let ghost before = target@;
        stamp_pattern(&mut target, pattern, origin_x, origin_y);
        pieces.push(
            BoardPiece {
                spec_name: stamp.name.to_owned(),
                origin_x,
                origin_y,
                width: pattern.width,
                height: pattern.height,
            },
        );
        proof {
            assert forall|y: int, x: int| 0 <= y < high && 0 <= x < wide implies #[trigger] target@[y][x] == lit(
                list@,
                (k + 1) as nat,
                y,
                x,
            ) by {
                assert(before[y][x] == lit(list@, k as nat, y, x));
                assert(lights_part(pattern@, origin_y as int, origin_x as int, pattern.height as int, 0, y, x)
                    == lights(list@[k as int], y, x));
                if lit(list@, k as nat, y, x) {
                    let i = choose|i: int| 0 <= i < k && lights(#[trigger] list@[i], y, x);
                    assert(lights(list@[i], y, x));
                }
                if lit(list@, (k + 1) as nat, y, x) {
                    let i = choose|i: int| 0 <= i < k + 1 && lights(#[trigger] list@[i], y, x);
                    if i < k {
                        assert(lit(list@, k as nat, y, x));
                    }
                }
            }
        }
        k += 1;
    }
    PublishedBoard { pieces, target }
}

/// Puts the pieces where they have been placed, with their connectors.
fn materialize(
    stock: &PublishedLibrary,
    files: Ghost<&PatternFiles>,
    laid: &BoardLayout,
    pieces: Ghost<Map<Place, Seq<char>>>,
    problem: &PlacementProblem,
    origins: &Vec<(i128, i128)>,
) -> (result: Result<PublishedBoard, BoardError>)
    requires
        stock.wf(files@),
        routing::piece_texts(laid.pieces@) == pieces@,
        layout::links_pieces(lanes::places(laid.wide@), RouteDir::E, pieces@),
        lanes::places(problem.places@) == cellmap::ordered(pieces@.dom()),
        are_names(problem.names@, names_at(pieces@, cellmap::ordered(pieces@.dom()))),
        cellmap::ordered(pieces@.dom()).no_duplicates(),
        forall|p: Place| #[trigger] cellmap::ordered(pieces@.dom()).contains(p) <==> pieces@.contains_key(p),
        origins@.len() > 0,
        origins@.len() == cellmap::ordered(pieces@.dom()).len(),
        corridors::short(origins@, 0x1f_ffff_ffff_ffff_ffff_ffff_ffff),
        forall|p: Place| #[trigger]
            lanes::places(laid.wide@).contains(p) ==> link_at(files@, pieces@, RouteDir::E, p) is Ok,
    ensures
        is_materialised(files@, pieces@, lanes::places(laid.wide@), placement::vectors(origins@), result),
{
    let ghost order = cellmap::ordered(pieces@.dom());
    let ghost vectors = placement::vectors(origins@);
    let ghost connectors = connector_pieces(files@, pieces@, vectors, lanes::places(laid.wide@));
    let ghost tiles = tile_pieces(files@, names_at(pieces@, order), vectors);
    let low: (i128, i128) = find_low_corner(origins);
    let mut stamps: Vec<Stamp> = match stamp_tiles(
        stock,
        files,
        &problem.names,
        Ghost(names_at(pieces@, order)),
        origins,
        low,
    ) {
        Ok(stamps) => stamps,
        Err(error) => {
            return Err(error);
        },
    };
    let numbers: PlaceMap<usize> = number_places(&problem.places);
    let mut more: Vec<Stamp> = match stamp_connectors(stock, files, laid, pieces, &numbers, origins, low) {
        Ok(stamps) => stamps,
        Err(error) => {
            return Err(error);
        },
    };
    let ghost first = stamps@;
    let ghost second = more@;
    stamps.append(&mut more);
    let ghost all = tiles + connectors;
    proof {
        assert(stamps@ =~= first + second);
        assert forall|i: int| 0 <= i < all.len() implies is_stamp(#[trigger] stamps@[i], stock, all[i]) by {
            if i < tiles.len() {
                assert(is_stamp(first[i], stock, tiles[i]));
            } else {
                assert(is_stamp(second[i - tiles.len()], stock, connectors[i - tiles.len()]));
            }
        }
        assert forall|i: int| 0 <= i < stamps@.len() implies 0 <= (#[trigger] stamps@[i]).x <= 0x7f_ffff_ffff_ffff_ffff_ffff_ffff && 0
            <= stamps@[i].y <= 0x7f_ffff_ffff_ffff_ffff_ffff_ffff by {
            if i < tiles.len() {
                assert(0 <= first[i].x);
            } else {
                assert(0 <= second[i - tiles.len()].x);
            }
        }
    }
    let extent: (i128, i128) = full_extent(stock, &stamps, Ghost(all));
    if extent.0 > 0x7fff_ffff || extent.1 > 0x7fff_ffff {
        return Err(BoardError::TooLarge);
    }
    Ok(stamp_all(stock, &stamps, Ghost(all), extent.0 as usize, extent.1 as usize))
}

/// How hard to look for a placement.
#[derive(Debug, Clone, Copy, PartialEq, Eq, Structural)]
pub struct BoardBuildOptions {
    /// Whether to look at single pieces where the search by corridors fails.
    pub allow_exact_placement_search: bool,
    /// The number of states that the search by pieces may look at.
    pub exact_search_state_limit: Option<usize>,
    /// After how many states progress is reported.
    pub exact_search_progress_interval: usize,
}

/// The search by corridors alone.
pub open spec fn default_options() -> BoardBuildOptions {
    BoardBuildOptions {
        allow_exact_placement_search: false,
        exact_search_state_limit: Some(100_000),
        exact_search_progress_interval: 10_000,
    }
}

impl Default for BoardBuildOptions {
    fn default() -> (options: Self)
        ensures
            options == default_options(),
    {
        BoardBuildOptions {
            allow_exact_placement_search: false,
            exact_search_state_limit: Some(100_000),
            exact_search_progress_interval: 10_000,
        }
    }
}

/// The pieces of a layout are placed and put on the board, or no placement is found.
pub open spec fn is_placed_result(
    files: &PatternFiles,
    c: ConstructionModel,
    model: LayoutModel,
    options: BoardBuildOptions,
    problem: PlacementProblem,
    placed: Result<Vec<(i128, i128)>, PlacementError>,
    result: Result<PublishedBoard, BoardError>,
) -> bool {
    &&& search::is_placement_result(
        &problem,
        options.allow_exact_placement_search,
        options.exact_search_state_limit,
        placed,
    )
    &&& match placed {
        Err(error) => board_fails(result, BoardFailure::Placement(error)),
        Ok(origins) => is_materialised(
            files,
            model.pieces,
            layout::seam_order(c, model, RouteDir::E),
            placement::vectors(origins@),
            result,
        ),
    }
}

/// The result of building the board of a layout.
pub open spec fn is_assembly(
    files: &PatternFiles,
    c: ConstructionModel,
    model: LayoutModel,
    options: BoardBuildOptions,
    result: Result<PublishedBoard, BoardError>,
) -> bool {
    let wide = lane_order(routing::seam(c, model.cells, RouteDir::E));
    let high = layout::seam_order(c, model, RouteDir::S);
    match links_at(files, model.pieces, RouteDir::E, wide, wide.len()) {
        Err(failure) => board_fails(result, failure),
        Ok(across) => match links_at(files, model.pieces, RouteDir::S, high, high.len()) {
            Err(failure) => board_fails(result, failure),
            Ok(down) => lists_places(c, model) && {
                exists|problem: PlacementProblem, placed: Result<Vec<(i128, i128)>, PlacementError>|
                    is_problem(problem, model.pieces, wide, high, across, down) && #[trigger] is_placed_result(
                        files,
                        c,
                        model,
                        options,
                        problem,
                        placed,
                        result,
                    )
            },
        },
    }
}

/// The result of building the board of a construction.
///
/// The patterns are read, the construction is laid out, and the pieces are placed such that
/// every link is kept. Where all pieces can stand as their links prefer, they do.
pub open spec fn is_board_result(
    files: &PatternFiles,
    c: ConstructionModel,
    options: BoardBuildOptions,
    result: Result<PublishedBoard, BoardError>,
) -> bool {
    match stock::load_failure(files, library::part1_table().len()) {
        Some(failure) => board_fails(result, BoardFailure::Pattern(failure)),
        None => match layout::layout_of(c) {
            Err(failure) => board_fails(result, failure),
            Ok(model) => is_assembly(files, c, model, options, result),
        },
    }
}

/// A construction with an instance or a net has a piece.
proof fn lemma_some_piece(c: ConstructionModel)
    requires
        c.instances.len() > 0 || c.nets.len() > 0,
        layout::layout_of(c) is Ok,
    ensures
        layout::layout_of(c)->Ok_0.pieces.dom() !~= Set::<Place>::empty(),
{
    let model = layout::layout_of(c)->Ok_0;
    let fixed = routing::instance_pieces(c, c.instances.len())->Ok_0;
    if c.instances.len() > 0 {
        let last = lanes::position(c, c.instances[c.instances.len() - 1].id);
        assert(fixed.contains_key(last));
        assert(model.pieces.dom().contains(last));
    } else {
        assert(routing::routed(c, 1) is Err) by {
            reveal_with_fuel(routing::routed, 2);
        }
        routing::lemma_routed_fails(c, 1, c.nets.len());
    }
}

/// Builds the board of a construction.
pub fn build_published_board_with_options(
    files: &PatternFiles,
    construction: &CompiledConstruction,
    options: BoardBuildOptions,
) -> (result: Result<PublishedBoard, BoardError>)
    requires
        files.wf(),
        construction.variable_inputs.wf(),
        lanes::board_fits(construction@),
        routing::sources_known(construction@),
        construction.instances@.len() > 0 || construction.nets@.len() > 0,
    ensures
        is_board_result(files, construction@, options, result),
{
    let ghost c = construction@;
    let stock: PublishedLibrary = match PublishedLibrary::load(files) {
        Ok(stock) => stock,
        Err(error) => {
            return Err(error);
        },
    };
    let laid: BoardLayout = match prepare_layout(construction) {
        Ok(laid) => laid,
        Err(error) => {
            return Err(error);
        },
    };
    let ghost model = layout::layout_of(c)->Ok_0;
    proof {
        lemma_some_piece(c);
    }
    let problem: PlacementProblem = match placement_problem(&stock, Ghost(files), &laid, Ghost(c), Ghost(model)) {
        Ok(problem) => problem,
        Err(error) => {
            return Err(error);
        },
    };
    let placed: Result<Vec<(i128, i128)>, PlacementError> = solve_origins(
        &problem,
        options.allow_exact_placement_search,
        options.exact_search_state_limit,
    );
    let ghost outcome = placed;
    let origins: Vec<(i128, i128)> = match placed {
        Ok(origins) => origins,
        Err(error) => {
            let failed: Result<PublishedBoard, BoardError> = Err(BoardError::Placement { error });
            assert(is_placed_result(files, c, model, options, problem, outcome, failed));
            return failed;
        },
    };
    proof {
        lemma_ready(files, c, model, laid, problem, origins@);
    }
    let board: Result<PublishedBoard, BoardError> = materialize(
        &stock,
        Ghost(files),
        &laid,
        Ghost(model.pieces),
        &problem,
        &origins,
    );
    assert(is_placed_result(files, c, model, options, problem, outcome, board));
    board
}

/// What is known once the pieces are placed.
proof fn lemma_ready(
    files: &PatternFiles,
    c: ConstructionModel,
    model: LayoutModel,
    laid: BoardLayout,
    problem: PlacementProblem,
    origins: Seq<(i128, i128)>,
)
    requires
        layout::is_layout(laid, c, model),
        is_problem_result(files, c, model, Ok::<PlacementProblem, BoardError>(problem)),
        lists_places(c, model),
        search::is_placement(&problem, origins),
    ensures
        cellmap::ordered(model.pieces.dom()).no_duplicates(),
        forall|p: Place| #[trigger] cellmap::ordered(model.pieces.dom()).contains(p) <==> model.pieces.contains_key(p),
        origins.len() > 0,
        origins.len() == cellmap::ordered(model.pieces.dom()).len(),
        corridors::short(origins, 0x1f_ffff_ffff_ffff_ffff_ffff_ffff),
        forall|p: Place| #[trigger]
            lanes::places(laid.wide@).contains(p) ==> link_at(files, model.pieces, RouteDir::E, p) is Ok,
{
    let order = cellmap::ordered(model.pieces.dom());
    assert forall|i: int| 0 <= i < origins.len() implies -0x1f_ffff_ffff_ffff_ffff_ffff_ffff <= (#[trigger] origins[i]).0
        <= 0x1f_ffff_ffff_ffff_ffff_ffff_ffff && -0x1f_ffff_ffff_ffff_ffff_ffff_ffff <= origins[i].1 <= 0x1f_ffff_ffff_ffff_ffff_ffff_ffff by {
        assert(placement::apart(Some(origins[i])));
    }
    let seam = routing::seam(c, model.cells, RouteDir::E);
    let wide = lane_order(seam);
    assert forall|p: Place| #[trigger] lanes::places(laid.wide@).contains(p) implies link_at(
        files,
        model.pieces,
        RouteDir::E,
        p,
    ) is Ok by {
        assert(seam.contains(p));
        assert(wide.contains(p));
        let i = choose|i: int| 0 <= i < wide.len() && wide[i] == p;
        lemma_link_there(files, model.pieces, RouteDir::E, wide, i, wide.len());
    }
}

/// Builds the board of a construction, without the search by pieces.
pub fn build_published_board(files: &PatternFiles, construction: &CompiledConstruction) -> (result: Result<
    PublishedBoard,
    BoardError,
>)
    requires
        files.wf(),
        construction.variable_inputs.wf(),
        lanes::board_fits(construction@),
        routing::sources_known(construction@),
        construction.instances@.len() > 0 || construction.nets@.len() > 0,
    ensures
        is_board_result(files, construction@, default_options(), result),
{
    build_published_board_with_options(files, construction, BoardBuildOptions::default())
}

} // verus!
