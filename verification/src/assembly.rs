//! What a board is made of: the patterns of its pieces, where the links put them.

use crate::board;
use crate::board::{BoardBuildOptions, BoardPiece, PieceModel, PublishedBoard};
use crate::board_error::BoardError;
use crate::candidates::HorizontalPlacementCandidate;
use crate::cellmap;
use crate::cellmap::Place;
use crate::compiler::ConstructionModel;
use crate::corridors;
use crate::corridors::Vector;
use crate::deltas;
use crate::deltas::LinkModel;
use crate::lanes;
use crate::layout;
use crate::layout::LayoutModel;
use crate::library;
use crate::placement;
use crate::placement::PlacementProblem;
use crate::published;
use crate::published::{PatternFiles, Placement, PublishedPattern};
use crate::routing;
use crate::routing::RouteDir;
use crate::search::PlacementError;
use crate::stock;
use vstd::prelude::*;

verus! {

pub proof fn lemma_extremes(values: Seq<int>)
    requires
        values.len() > 0,
    ensures
        forall|i: int| 0 <= i < values.len() ==> lanes::least(values) <= #[trigger] values[i] <= lanes::greatest(values),
        exists|i: int| 0 <= i < values.len() && #[trigger] values[i] == lanes::least(values),
        exists|i: int| 0 <= i < values.len() && #[trigger] values[i] == lanes::greatest(values),
    decreases values.len(),
{
    let rest = values.drop_last();
    let n = values.len() - 1;
    if values.len() > 1 {
        lemma_extremes(rest);
        assert forall|i: int| 0 <= i < values.len() implies lanes::least(values) <= #[trigger] values[i]
            <= lanes::greatest(values) by {
            if i < n {
                assert(rest[i] == values[i]);
            }
        }
        let a = choose|i: int| 0 <= i < rest.len() && #[trigger] rest[i] == lanes::least(rest);
        let b = choose|i: int| 0 <= i < rest.len() && #[trigger] rest[i] == lanes::greatest(rest);
        assert(values[a] == lanes::least(rest));
        assert(values[b] == lanes::greatest(rest));
        assert(values[n] == values.last());
    } else {
        assert(values[0] == values.last());
    }
}

/// The cells of a piece's pattern that are alive, where the piece lies.
pub open spec fn lives_in(files: &PatternFiles, piece: BoardPiece, y: int, x: int) -> bool {
    let rows = published::alive_rows(stock::rows_named(files, piece.spec_name@)->Some_0);
    let (row, column) = (y - piece.origin_y, x - piece.origin_x);
    0 <= row < rows.len() && 0 <= column < rows[row].len() && rows[row][column]
}

/// The pieces are patterns of the library, of the size that their files say, and lie on the board,
/// which is no larger than they need; a cell is alive if and only if it is in the pattern of a
/// piece that lies there.
pub open spec fn is_made_of_pieces(files: &PatternFiles, board: PublishedBoard) -> bool {
    &&& board.pieces@.len() > 0
    &&& forall|i: int|
        0 <= i < board.pieces@.len() ==> {
            let piece = #[trigger] board.pieces@[i];
            &&& stock::rows_named(files, piece.spec_name@) matches Some(rows) && piece.height == rows.len() && rows.len()
                > 0 && piece.width == rows[0].len() && published::same_lengths(rows)
            &&& piece.origin_x + piece.width <= board.target.width
            &&& piece.origin_y + piece.height <= board.target.height
        }
    &&& exists|i: int| 0 <= i < board.pieces@.len() && (#[trigger] board.pieces@[i]).origin_x == 0
    &&& exists|i: int| 0 <= i < board.pieces@.len() && (#[trigger] board.pieces@[i]).origin_y == 0
    &&& exists|i: int|
        0 <= i < board.pieces@.len() && (#[trigger] board.pieces@[i]).origin_x + board.pieces@[i].width
            == board.target.width
    &&& exists|i: int|
        0 <= i < board.pieces@.len() && (#[trigger] board.pieces@[i]).origin_y + board.pieces@[i].height
            == board.target.height
    &&& board.target.wf()
    &&& forall|y: int, x: int|
        0 <= y < board.target.height && 0 <= x < board.target.width ==> #[trigger] board.target@[y][x] == exists|i: int|
            0 <= i < board.pieces@.len() && lives_in(files, #[trigger] board.pieces@[i], y, x)
}

proof fn lemma_loaded(files: &PatternFiles, k: nat, j: int)
    requires
        stock::load_failure(files, k) is None,
        0 <= j < k,
    ensures
        published::pattern_in_files(files, library::part1_table()[j].path) is Ok,
    decreases k,
{
    if j < k - 1 {
        lemma_loaded(files, (k - 1) as nat, j);
    }
}

proof fn lemma_named_there(table: Seq<library::SpecModel>, name: Seq<char>)
    ensures
        library::named_entry(table, name) matches Some(spec) ==> exists|i: int|
            0 <= i < table.len() && #[trigger] table[i] == spec,
    decreases table.len(),
{
    if table.len() > 0 && table[0].name != name {
        lemma_named_there(table.drop_first(), name);
        if let Some(spec) = library::named_entry(table, name) {
            let rest = table.drop_first();
            let i = choose|i: int| 0 <= i < rest.len() && #[trigger] rest[i] == spec;
            assert(table[i + 1] == spec);
        }
    }
}

proof fn lemma_rows_there(files: &PatternFiles, name: Seq<char>)
    requires
        stock::load_failure(files, library::part1_table().len()) is None,
        library::spec_named(name) is Some,
    ensures
        stock::rows_named(files, name) is Some,
{
    let table = library::part1_table();
    lemma_named_there(table, name);
    let spec = library::spec_named(name)->Some_0;
    let i = choose|i: int| 0 <= i < table.len() && #[trigger] table[i] == spec;
    lemma_loaded(files, table.len(), i);
}

proof fn lemma_rows_filled(files: &PatternFiles, name: Seq<char>)
    requires
        stock::rows_named(files, name) is Some,
    ensures
        stock::rows_named(files, name)->Some_0.len() > 0,
        published::same_lengths(stock::rows_named(files, name)->Some_0),
{
}

proof fn lemma_names_known(names: Seq<Seq<char>>, k: nat, i: int)
    requires
        board::first_unknown(names, k) is None,
        0 <= i < k,
    ensures
        library::spec_named(names[i]) is Some,
    decreases k,
{
    if i < k - 1 {
        lemma_names_known(names, (k - 1) as nat, i);
    }
}

proof fn lemma_none_outside(list: Seq<PieceModel>, k: nat, i: int)
    requires
        board::first_outside(list, k) is None,
        0 <= i < k,
    ensures
        !board::is_outside(list[i]),
    decreases k,
{
    if i < k - 1 {
        lemma_none_outside(list, (k - 1) as nat, i);
    }
}

/// The pieces that make up a board: where a board is built, its pieces are those of a placement.
pub open spec fn is_built(
    files: &PatternFiles,
    c: ConstructionModel,
    board: PublishedBoard,
    origins: Seq<Vector>,
) -> bool {
    let model = layout::layout_of(c)->Ok_0;
    &&& layout::layout_of(c) is Ok
    &&& stock::load_failure(files, library::part1_table().len()) is None
    &&& board::lists_places(c, model)
    &&& origins.len() == cellmap::ordered(model.pieces.dom()).len()
    &&& origins.len() > 0
    &&& board::is_materialised(
        files,
        model.pieces,
        layout::seam_order(c, model, RouteDir::E),
        origins,
        Ok::<PublishedBoard, BoardError>(board),
    )
    &&& forall|p: Place| #[trigger]
        routing::seam(c, model.cells, RouteDir::E).contains(p) ==> board::link_at(files, model.pieces, RouteDir::E, p) is Ok
            && keeps_link(model, origins, p, RouteDir::E, board::link_at(files, model.pieces, RouteDir::E, p)->Ok_0)
    &&& forall|p: Place| #[trigger]
        routing::seam(c, model.cells, RouteDir::S).contains(p) ==> board::link_at(files, model.pieces, RouteDir::S, p) is Ok
            && keeps_link(model, origins, p, RouteDir::S, board::link_at(files, model.pieces, RouteDir::S, p)->Ok_0)
}

/// The piece at a place and its neighbour stand as one of the candidates of their link says.
pub open spec fn keeps_link(model: LayoutModel, origins: Seq<Vector>, p: Place, dir: RouteDir, link: LinkModel) -> bool {
    let order = cellmap::ordered(model.pieces.dom());
    let from = order.index_of(p);
    let to = order.index_of(lanes::moved(p, dir));
    &&& order.contains(p)
    &&& order.contains(lanes::moved(p, dir))
    &&& exists|i: int|
        0 <= i < link.candidates.len() && origins[to].0 == origins[from].0 + (
        #[trigger] link.candidates[i]).right_delta.0 && origins[to].1 == origins[from].1 + link.candidates[i].right_delta.1
}

proof fn lemma_put_among(
    list: Seq<HorizontalPlacementCandidate>,
    candidate: HorizontalPlacementCandidate,
    from: HorizontalPlacementCandidate,
)
    ensures
        forall|i: int|
            0 <= i < deltas::put(list, candidate, from).len() ==> #[trigger] deltas::put(list, candidate, from)[i]
                == candidate || list.contains(deltas::put(list, candidate, from)[i]),
    decreases list.len(),
{
    let after = deltas::put(list, candidate, from);
    if list.len() > 0 && deltas::farther(list.last(), candidate, from) {
        lemma_put_among(list.drop_last(), candidate, from);
        let rest = deltas::put(list.drop_last(), candidate, from);
        assert forall|i: int| 0 <= i < after.len() implies #[trigger] after[i] == candidate || list.contains(after[i]) by {
            if i < rest.len() {
                assert(after[i] == rest[i]);
                if rest[i] != candidate {
                    let short = list.drop_last();
                    let j = choose|j: int| 0 <= j < short.len() && short[j] == rest[i];
                    assert(list[j] == rest[i]);
                }
            } else {
                assert(list[list.len() - 1] == after[i]);
            }
        }
    } else {
        assert forall|i: int| 0 <= i < after.len() implies #[trigger] after[i] == candidate || list.contains(after[i]) by {
            if i < list.len() {
                assert(list[i] == after[i]);
            }
        }
    }
}

proof fn lemma_nearest_among(list: Seq<HorizontalPlacementCandidate>, from: HorizontalPlacementCandidate, k: nat)
    requires
        k <= list.len(),
    ensures
        forall|i: int|
            0 <= i < deltas::nearest_first(list, from, k).len() ==> list.contains(
                #[trigger] deltas::nearest_first(list, from, k)[i],
            ),
    decreases k,
{
    if k > 0 {
        let before = deltas::nearest_first(list, from, (k - 1) as nat);
        lemma_nearest_among(list, from, (k - 1) as nat);
        lemma_put_among(before, list[k - 1], from);
        let after = deltas::nearest_first(list, from, k);
        assert forall|i: int| 0 <= i < after.len() implies list.contains(#[trigger] after[i]) by {
            if after[i] != list[k - 1] {
                let j = choose|j: int| 0 <= j < before.len() && before[j] == after[i];
                assert(list.contains(before[j]));
            }
        }
    }
}

proof fn lemma_keeps_link(
    model: LayoutModel,
    problem: PlacementProblem,
    origins: Seq<Vector>,
    l: int,
    p: Place,
    dir: RouteDir,
    link: LinkModel,
)
    requires
        cellmap::ordered(model.pieces.dom()).no_duplicates(),
        problem.coherent(origins),
        0 <= l < problem.links@.len(),
        board::is_placed_link(problem.links@[l], cellmap::ordered(model.pieces.dom()), p, dir, link),
    ensures
        keeps_link(model, origins, p, dir, link),
{
    let order = cellmap::ordered(model.pieces.dom());
    let placed = problem.links@[l];
    assert(order[placed.from as int] == p);
    assert(order[placed.to as int] == lanes::moved(p, dir));
    assert(order.contains(p) && order.contains(lanes::moved(p, dir)));
    assert(order.index_of(p) == placed.from);
    assert(order.index_of(lanes::moved(p, dir)) == placed.to);
    assert(problem.link_holds(origins, placed));
    let list = deltas::nearest_first(link.candidates, link.default, link.candidates.len());
    let gap = corridors::minus(origins[placed.to as int], origins[placed.from as int]);
    let i = choose|i: int| 0 <= i < placed.deltas@.len() && corridors::vector(#[trigger] placed.deltas@[i]) == gap;
    assert(placed.deltas@[i] == (list[i].right_delta.0 as i128, list[i].right_delta.1 as i128));
    lemma_nearest_among(link.candidates, link.default, link.candidates.len());
    assert(link.candidates.contains(list[i]));
    let j = choose|j: int| 0 <= j < link.candidates.len() && link.candidates[j] == list[i];
    assert(origins[placed.to as int].0 == origins[placed.from as int].0 + link.candidates[j].right_delta.0);
}

/// Where a board is built, its pieces are those of a placement that keeps all links.
#[verifier::spinoff_prover]
#[verifier::rlimit(60)]
proof fn lemma_built(files: &PatternFiles, c: ConstructionModel, options: BoardBuildOptions, board: PublishedBoard)
    requires
        board::is_board_result(files, c, options, Ok::<PublishedBoard, BoardError>(board)),
    ensures
        exists|origins: Seq<Vector>| #[trigger] is_built(files, c, board, origins),
{
    let result = Ok::<PublishedBoard, BoardError>(board);
    let model = layout::layout_of(c)->Ok_0;
    let order = cellmap::ordered(model.pieces.dom());
    let east = routing::seam(c, model.cells, RouteDir::E);
    let south = routing::seam(c, model.cells, RouteDir::S);
    let wide = board::lane_order(east);
    let high = layout::seam_order(c, model, RouteDir::S);
    let across = board::links_at(files, model.pieces, RouteDir::E, wide, wide.len())->Ok_0;
    let down = board::links_at(files, model.pieces, RouteDir::S, high, high.len())->Ok_0;
    let (problem, placed) = choose|
        problem: PlacementProblem,
        placed: Result<Vec<(i128, i128)>, PlacementError>,
    |
        board::is_problem(problem, model.pieces, wide, high, across, down) && #[trigger] board::is_placed_result(
            files,
            c,
            model,
            options,
            problem,
            placed,
            result,
        );
    let origins = placement::vectors(placed->Ok_0@);
    assert(problem.coherent(origins));
    assert forall|p: Place| #[trigger] east.contains(p) implies board::link_at(files, model.pieces, RouteDir::E, p) is Ok
        && keeps_link(model, origins, p, RouteDir::E, board::link_at(files, model.pieces, RouteDir::E, p)->Ok_0) by {
        assert(wide.contains(p));
        let i = choose|i: int| 0 <= i < wide.len() && wide[i] == p;
        board::lemma_link_there(files, model.pieces, RouteDir::E, wide, i, wide.len());
        assert(board::is_placed_link(problem.links@[0 + i], order, wide[i], RouteDir::E, across[i]));
        lemma_keeps_link(model, problem, origins, i, p, RouteDir::E, across[i]);
    }
    assert forall|p: Place| #[trigger] south.contains(p) implies board::link_at(files, model.pieces, RouteDir::S, p) is Ok
        && keeps_link(model, origins, p, RouteDir::S, board::link_at(files, model.pieces, RouteDir::S, p)->Ok_0) by {
        assert(high.contains(p));
        let i = choose|i: int| 0 <= i < high.len() && high[i] == p;
        board::lemma_link_there(files, model.pieces, RouteDir::S, high, i, high.len());
        assert(board::is_placed_link(problem.links@[wide.len() + i], order, high[i], RouteDir::S, down[i]));
        lemma_keeps_link(model, problem, origins, wide.len() + i, p, RouteDir::S, down[i]);
    }
    assert(is_built(files, c, board, origins));
}

/// All pieces of a board.
pub open spec fn all_models(files: &PatternFiles, c: ConstructionModel, origins: Seq<Vector>) -> Seq<PieceModel> {
    let model = layout::layout_of(c)->Ok_0;
    let order = cellmap::ordered(model.pieces.dom());
    board::tile_pieces(files, board::names_at(model.pieces, order), origins) + board::connector_pieces(
        files,
        model.pieces,
        origins,
        layout::seam_order(c, model, RouteDir::E),
    )
}

#[verifier::spinoff_prover]
#[verifier::rlimit(60)]
proof fn lemma_models_there(files: &PatternFiles, c: ConstructionModel, board: PublishedBoard, origins: Seq<Vector>, i: int)
    requires
        is_built(files, c, board, origins),
        0 <= i < all_models(files, c, origins).len(),
    ensures
        ({
            let piece = all_models(files, c, origins)[i];
            &&& stock::rows_named(files, piece.name) == Some(piece.rows)
            &&& piece.rows.len() > 0
            &&& published::same_lengths(piece.rows)
            &&& piece.origin.0 >= 0
            &&& piece.origin.1 >= 0
        }),
{
    let model = layout::layout_of(c)->Ok_0;
    let order = cellmap::ordered(model.pieces.dom());
    let names = board::names_at(model.pieces, order);
    let wide = layout::seam_order(c, model, RouteDir::E);
    let tiles = board::tile_pieces(files, names, origins);
    let connectors = board::connector_pieces(files, model.pieces, origins, wide);
    let piece = all_models(files, c, origins)[i];
    if i < origins.len() {
        assert(piece == tiles[i]);
        lemma_names_known(names, order.len(), i);
        lemma_rows_there(files, names[i]);
        let xs = Seq::new(origins.len(), |k: int| origins[k].0);
        let ys = Seq::new(origins.len(), |k: int| origins[k].1);
        lemma_extremes(xs);
        lemma_extremes(ys);
        assert(xs[i] == origins[i].0 && ys[i] == origins[i].1);
    } else {
        let j = i - origins.len();
        assert(piece == connectors[j]);
        lemma_none_outside(connectors, connectors.len(), j);
        assert(wide.contains(wide[j]));
        let p = wide[j];
        assert(routing::seam(c, model.cells, RouteDir::E).contains(p));
        assert(board::link_at(files, model.pieces, RouteDir::E, p) is Ok);
    }
    lemma_rows_filled(files, piece.name);
}

/// The pieces are patterns of the library, with the corner of the board in their common corner.
pub open spec fn is_stocked(files: &PatternFiles, list: Seq<PieceModel>) -> bool {
    &&& list.len() > 0
    &&& forall|i: int|
        0 <= i < list.len() ==> {
            let piece = #[trigger] list[i];
            &&& stock::rows_named(files, piece.name) == Some(piece.rows)
            &&& piece.rows.len() > 0
            &&& published::same_lengths(piece.rows)
            &&& piece.origin.0 >= 0
            &&& piece.origin.1 >= 0
        }
    &&& exists|i: int| 0 <= i < list.len() && (#[trigger] list[i]).origin.0 == 0
    &&& exists|i: int| 0 <= i < list.len() && (#[trigger] list[i]).origin.1 == 0
}

#[verifier::spinoff_prover]
#[verifier::rlimit(60)]
proof fn lemma_stocked(files: &PatternFiles, c: ConstructionModel, board: PublishedBoard, origins: Seq<Vector>)
    requires
        is_built(files, c, board, origins),
    ensures
        is_stocked(files, all_models(files, c, origins)),
        board::is_board(board, all_models(files, c, origins)),
        board::full_width(all_models(files, c, origins)) <= i32::MAX,
        board::full_height(all_models(files, c, origins)) <= i32::MAX,
{
    let list = all_models(files, c, origins);
    assert forall|i: int| 0 <= i < list.len() implies {
        let piece = #[trigger] list[i];
        &&& stock::rows_named(files, piece.name) == Some(piece.rows)
        &&& piece.rows.len() > 0
        &&& published::same_lengths(piece.rows)
        &&& piece.origin.0 >= 0
        &&& piece.origin.1 >= 0
    } by {
        lemma_models_there(files, c, board, origins, i);
    }
    let xs = Seq::new(origins.len(), |k: int| origins[k].0);
    let ys = Seq::new(origins.len(), |k: int| origins[k].1);
    lemma_extremes(xs);
    lemma_extremes(ys);
    let a = choose|i: int| 0 <= i < xs.len() && #[trigger] xs[i] == lanes::least(xs);
    let b = choose|i: int| 0 <= i < ys.len() && #[trigger] ys[i] == lanes::least(ys);
    assert(list[a].origin.0 == 0);
    assert(list[b].origin.1 == 0);
}

#[verifier::spinoff_prover]
#[verifier::rlimit(60)]
proof fn lemma_made(files: &PatternFiles, board: PublishedBoard, list: Seq<PieceModel>)
    requires
        is_stocked(files, list),
        board::is_board(board, list),
    ensures
        is_made_of_pieces(files, board),
{
    let pieces = board.pieces@;
    let rights = Seq::new(list.len(), |i: int| list[i].origin.0 + list[i].rows[0].len());
    let bottoms = Seq::new(list.len(), |i: int| list[i].origin.1 + list[i].rows.len());
    lemma_extremes(rights);
    lemma_extremes(bottoms);
    assert(board.target.width == lanes::greatest(rights));
    assert(board.target.height == lanes::greatest(bottoms));
    assert forall|i: int| 0 <= i < pieces.len() implies {
        let piece = #[trigger] pieces[i];
        &&& stock::rows_named(files, piece.spec_name@) matches Some(rows) && piece.height == rows.len() && rows.len() > 0
            && piece.width == rows[0].len() && published::same_lengths(rows)
        &&& piece.origin_x + piece.width <= board.target.width
        &&& piece.origin_y + piece.height <= board.target.height
    } by {
        assert(board::is_board_piece(pieces[i], list[i]));
        assert(rights[i] <= lanes::greatest(rights));
        assert(bottoms[i] <= lanes::greatest(bottoms));
    }
    let a = choose|i: int| 0 <= i < list.len() && (#[trigger] list[i]).origin.0 == 0;
    let b = choose|i: int| 0 <= i < list.len() && (#[trigger] list[i]).origin.1 == 0;
    let d = choose|i: int| 0 <= i < rights.len() && #[trigger] rights[i] == lanes::greatest(rights);
    let e = choose|i: int| 0 <= i < bottoms.len() && #[trigger] bottoms[i] == lanes::greatest(bottoms);
    assert(pieces[a].origin_x == 0);
    assert(pieces[b].origin_y == 0);
    assert(pieces[d].origin_x + pieces[d].width == board.target.width);
    assert(pieces[e].origin_y + pieces[e].height == board.target.height);
    assert forall|y: int, x: int|
        0 <= y < board.target.height && 0 <= x < board.target.width implies #[trigger] board.target@[y][x] == exists|i: int|
        0 <= i < pieces.len() && lives_in(files, #[trigger] pieces[i], y, x) by {
        lemma_lit(files, board, list, y, x);
    }
}

proof fn lemma_lit(files: &PatternFiles, board: PublishedBoard, list: Seq<PieceModel>, y: int, x: int)
    requires
        is_stocked(files, list),
        board.pieces@.len() == list.len(),
        forall|i: int| 0 <= i < list.len() ==> board::is_board_piece(#[trigger] board.pieces@[i], list[i]),
    ensures
        board::lit(list, list.len(), y, x) == exists|i: int|
            0 <= i < board.pieces@.len() && lives_in(files, #[trigger] board.pieces@[i], y, x),
{
    let pieces = board.pieces@;
    assert forall|i: int| 0 <= i < list.len() implies board::lights(#[trigger] list[i], y, x) == lives_in(
        files,
        pieces[i],
        y,
        x,
    ) by {
        assert(board::is_board_piece(pieces[i], list[i]));
        let row = y - list[i].origin.1;
        if 0 <= row < list[i].rows.len() {
            assert(list[i].rows[row].len() == list[i].rows[0].len());
        }
    }
    if board::lit(list, list.len(), y, x) {
        let i = choose|i: int| 0 <= i < list.len() && board::lights(#[trigger] list[i], y, x);
        assert(lives_in(files, pieces[i], y, x));
    }
    if exists|i: int| 0 <= i < pieces.len() && lives_in(files, #[trigger] pieces[i], y, x) {
        let i = choose|i: int| 0 <= i < pieces.len() && lives_in(files, #[trigger] pieces[i], y, x);
        assert(board::lights(list[i], y, x));
    }
}

/// A board is made of the patterns of its pieces: its cells are alive exactly where a piece's
/// pattern is.
pub proof fn law_board_is_made_of_pieces(
    files: &PatternFiles,
    c: ConstructionModel,
    options: BoardBuildOptions,
    board: PublishedBoard,
)
    requires
        board::is_board_result(files, c, options, Ok::<PublishedBoard, BoardError>(board)),
    ensures
        is_made_of_pieces(files, board),
        board.target.width <= i32::MAX,
        board.target.height <= i32::MAX,
{
    lemma_built(files, c, options, board);
    let origins = choose|origins: Seq<Vector>| #[trigger] is_built(files, c, board, origins);
    lemma_stocked(files, c, board, origins);
    lemma_made(files, board, all_models(files, c, origins));
}

/// The patterns of a board's pieces, where they lie.
pub open spec fn placed_on(board: PublishedBoard, patterns: Seq<PublishedPattern>) -> Seq<Placement<'static>> {
    Seq::new(
        patterns.len(),
        |i: int| (&patterns[i], board.pieces@[i].origin_x as isize, board.pieces@[i].origin_y as isize),
    )
}

/// A board shows the live cells of the pattern to which its pieces compose.
pub proof fn law_board_is_composition(
    files: &PatternFiles,
    c: ConstructionModel,
    options: BoardBuildOptions,
    board: PublishedBoard,
    patterns: Seq<PublishedPattern>,
    composed: PublishedPattern,
)
    requires
        board::is_board_result(files, c, options, Ok::<PublishedBoard, BoardError>(board)),
        patterns.len() == board.pieces@.len(),
        forall|i: int|
            0 <= i < patterns.len() ==> (#[trigger] patterns[i]).wf() && stock::rows_named(
                files,
                board.pieces@[i].spec_name@,
            ) == Some(patterns[i]@),
        published::is_composition(&composed, placed_on(board, patterns)),
    ensures
        board.target@ == published::alive_rows(composed@),
        board.target.width == composed.width,
        board.target.height == composed.height,
{
    law_board_is_made_of_pieces(files, c, options, board);
    lemma_composed(files, board, patterns, composed);
}

proof fn lemma_composed(
    files: &PatternFiles,
    board: PublishedBoard,
    patterns: Seq<PublishedPattern>,
    composed: PublishedPattern,
)
    requires
        is_made_of_pieces(files, board),
        board.target.width <= i32::MAX,
        board.target.height <= i32::MAX,
        patterns.len() == board.pieces@.len(),
        forall|i: int|
            0 <= i < patterns.len() ==> (#[trigger] patterns[i]).wf() && stock::rows_named(
                files,
                board.pieces@[i].spec_name@,
            ) == Some(patterns[i]@),
        published::is_composition(&composed, placed_on(board, patterns)),
    ensures
        board.target@ == published::alive_rows(composed@),
        board.target.width == composed.width,
        board.target.height == composed.height,
{
    let pieces = board.pieces@;
    let all = placed_on(board, patterns);
    assert forall|i: int| 0 <= i < pieces.len() implies (#[trigger] all[i]).1 == pieces[i].origin_x && all[i].2
        == pieces[i].origin_y && all[i].0.width == pieces[i].width && all[i].0.height == pieces[i].height by {
        let piece = pieces[i];
        assert(piece.origin_x + piece.width <= board.target.width);
        assert(patterns[i].wf());
        assert(patterns[i]@[0].len() == patterns[i].width);
    }
    let (left, top, right, bottom) = choose|left: int, top: int, right: int, bottom: int| #[trigger]
        published::is_box(all, left, top, right, bottom) && composed.width == right - left && composed.height == bottom
            - top && forall|y: int, x: int|
            0 <= y < composed.height && 0 <= x < composed.width ==> published::is_largest_value(
                #[trigger] composed@[y][x],
                all,
                top + y,
                left + x,
            );
    lemma_box(board, all, left, top, right, bottom);
    let rows = published::alive_rows(composed@);
    assert(composed@.len() == composed.height);
    assert(board.target@.len() == board.target.height);
    assert forall|y: int| 0 <= y < rows.len() implies #[trigger] rows[y] =~= board.target@[y] by {
        assert(composed@[y].len() == composed.width);
        assert(board.target@[y].len() == board.target.width);
        assert forall|x: int| 0 <= x < composed.width implies (composed@[y][x] > 0) == board.target@[y][x] by {
            assert(published::is_largest_value(composed@[y][x], all, y, x));
            lemma_shown(files, board, patterns, composed@[y][x], y, x);
        }
    }
    assert(rows =~= board.target@);
}

proof fn lemma_shown(
    files: &PatternFiles,
    board: PublishedBoard,
    patterns: Seq<PublishedPattern>,
    value: u8,
    y: int,
    x: int,
)
    requires
        patterns.len() == board.pieces@.len(),
        forall|i: int|
            0 <= i < patterns.len() ==> (#[trigger] patterns[i]).wf() && stock::rows_named(
                files,
                board.pieces@[i].spec_name@,
            ) == Some(patterns[i]@),
        forall|i: int|
            0 <= i < patterns.len() ==> (#[trigger] placed_on(board, patterns)[i]).1 == board.pieces@[i].origin_x
                && placed_on(board, patterns)[i].2 == board.pieces@[i].origin_y,
        published::is_largest_value(value, placed_on(board, patterns), y, x),
    ensures
        (value > 0) == exists|i: int| 0 <= i < board.pieces@.len() && lives_in(files, #[trigger] board.pieces@[i], y, x),
{
    let pieces = board.pieces@;
    let all = placed_on(board, patterns);
    assert forall|k: int| 0 <= k < all.len() implies (published::placed_value(#[trigger] all[k], y, x) > 0) == lives_in(
        files,
        pieces[k],
        y,
        x,
    ) by {
        assert(patterns[k].wf());
        let row = y - pieces[k].origin_y;
        if 0 <= row < patterns[k]@.len() {
            assert(patterns[k]@[row].len() == patterns[k].width);
        }
    }
    if value > 0 {
        let k = choose|k: int| 0 <= k < all.len() && published::placed_value(#[trigger] all[k], y, x) == value;
        assert(lives_in(files, pieces[k], y, x));
    }
    if exists|i: int| 0 <= i < pieces.len() && lives_in(files, #[trigger] pieces[i], y, x) {
        let k = choose|i: int| 0 <= i < pieces.len() && lives_in(files, #[trigger] pieces[i], y, x);
        assert(published::placed_value(all[k], y, x) > 0);
    }
}

proof fn lemma_box(board: PublishedBoard, all: Seq<Placement>, left: int, top: int, right: int, bottom: int)
    requires
        all.len() == board.pieces@.len(),
        forall|i: int|
            0 <= i < all.len() ==> (#[trigger] all[i]).1 == board.pieces@[i].origin_x && all[i].2 == board.pieces@[i].origin_y
                && all[i].0.width == board.pieces@[i].width && all[i].0.height == board.pieces@[i].height,
        published::is_box(all, left, top, right, bottom),
        forall|i: int|
            0 <= i < board.pieces@.len() ==> (#[trigger] board.pieces@[i]).origin_x + board.pieces@[i].width
                <= board.target.width && board.pieces@[i].origin_y + board.pieces@[i].height <= board.target.height,
        exists|i: int| 0 <= i < board.pieces@.len() && (#[trigger] board.pieces@[i]).origin_x == 0,
        exists|i: int| 0 <= i < board.pieces@.len() && (#[trigger] board.pieces@[i]).origin_y == 0,
        exists|i: int|
            0 <= i < board.pieces@.len() && (#[trigger] board.pieces@[i]).origin_x + board.pieces@[i].width
                == board.target.width,
        exists|i: int|
            0 <= i < board.pieces@.len() && (#[trigger] board.pieces@[i]).origin_y + board.pieces@[i].height
                == board.target.height,
    ensures
        left == 0,
        top == 0,
        right == board.target.width,
        bottom == board.target.height,
{
    let pieces = board.pieces@;
    let a = choose|i: int| 0 <= i < pieces.len() && (#[trigger] pieces[i]).origin_x == 0;
    let b = choose|i: int| 0 <= i < pieces.len() && (#[trigger] pieces[i]).origin_y == 0;
    let d = choose|i: int|
        0 <= i < pieces.len() && (#[trigger] pieces[i]).origin_x + pieces[i].width == board.target.width;
    let e = choose|i: int|
        0 <= i < pieces.len() && (#[trigger] pieces[i]).origin_y + pieces[i].height == board.target.height;
    assert(left <= all[a].1 && top <= all[b].2);
    assert(all[d].1 + all[d].0.width <= right && all[e].2 + all[e].0.height <= bottom);
    let k = choose|k: int| 0 <= k < all.len() && (#[trigger] all[k]).1 == left;
    let l = choose|k: int| 0 <= k < all.len() && (#[trigger] all[k]).2 == top;
    let m = choose|k: int| 0 <= k < all.len() && (#[trigger] all[k]).1 + all[k].0.width == right;
    let n = choose|k: int| 0 <= k < all.len() && (#[trigger] all[k]).2 + all[k].0.height == bottom;
    assert(all[k].1 == pieces[k].origin_x && all[l].2 == pieces[l].origin_y);
    assert(pieces[m].origin_x + pieces[m].width <= board.target.width);
    assert(pieces[n].origin_y + pieces[n].height <= board.target.height);
}

proof fn lemma_fitting(list: Seq<HorizontalPlacementCandidate>, gap: Vector)
    requires
        exists|i: int| 0 <= i < list.len() && deltas::pair_vector((#[trigger] list[i]).right_delta) == gap,
    ensures
        deltas::pair_vector(board::first_fitting(list, gap).right_delta) == gap,
        list.contains(board::first_fitting(list, gap)),
    decreases list.len(),
{
    let i = choose|i: int| 0 <= i < list.len() && deltas::pair_vector((#[trigger] list[i]).right_delta) == gap;
    if list.len() > 1 && deltas::pair_vector(list[0].right_delta) != gap {
        let rest = list.drop_first();
        assert(rest[i - 1] == list[i]);
        lemma_fitting(rest, gap);
        let j = choose|j: int| 0 <= j < rest.len() && rest[j] == board::first_fitting(rest, gap);
        assert(list[j + 1] == board::first_fitting(list, gap));
    } else {
        assert(list[0] == board::first_fitting(list, gap));
    }
}

/// A piece lies as far from another as a pair of numbers says.
pub open spec fn lies_off(piece: BoardPiece, from: BoardPiece, delta: (i32, i32)) -> bool {
    piece.origin_x - from.origin_x == delta.0 && piece.origin_y - from.origin_y == delta.1
}

/// The pieces on either side of a place are linked across: a connector lies between them, both as
/// one and the same candidate says.
pub open spec fn is_joined_across(
    files: &PatternFiles,
    board: PublishedBoard,
    left: int,
    right: int,
    connector: int,
) -> bool {
    let pieces = board.pieces@;
    deltas::link_across(files, pieces[left].spec_name@, pieces[right].spec_name@) matches Ok(link)
        && pieces[connector].spec_name@ == link.connector && exists|i: int|
        0 <= i < link.candidates.len() && lies_off(pieces[right], pieces[left], (#[trigger] link.candidates[i]).right_delta)
            && lies_off(pieces[connector], pieces[left], link.candidates[i].connector_delta)
}

/// The pieces above and below a place are linked.
pub open spec fn is_joined_down(files: &PatternFiles, board: PublishedBoard, top: int, bottom: int) -> bool {
    let pieces = board.pieces@;
    deltas::link_down(files, pieces[top].spec_name@, pieces[bottom].spec_name@) matches Ok(link) && exists|i: int|
        0 <= i < link.candidates.len() && lies_off(pieces[bottom], pieces[top], (#[trigger] link.candidates[i]).right_delta)
}

#[verifier::spinoff_prover]
#[verifier::rlimit(60)]
proof fn lemma_joined_across(
    files: &PatternFiles,
    c: ConstructionModel,
    board: PublishedBoard,
    origins: Seq<Vector>,
    j: int,
)
    requires
        is_built(files, c, board, origins),
        0 <= j < layout::seam_order(c, layout::layout_of(c)->Ok_0, RouteDir::E).len(),
    ensures
        ({
            let model = layout::layout_of(c)->Ok_0;
            let order = cellmap::ordered(model.pieces.dom());
            let p = layout::seam_order(c, model, RouteDir::E)[j];
            is_joined_across(
                files,
                board,
                order.index_of(p),
                order.index_of(lanes::moved(p, RouteDir::E)),
                order.len() + j,
            )
        }),
{
    let model = layout::layout_of(c)->Ok_0;
    let order = cellmap::ordered(model.pieces.dom());
    let wide = layout::seam_order(c, model, RouteDir::E);
    let p = wide[j];
    let q = lanes::moved(p, RouteDir::E);
    let (from, to) = (order.index_of(p), order.index_of(q));
    let list = all_models(files, c, origins);
    let link = board::link_at(files, model.pieces, RouteDir::E, p)->Ok_0;
    let gap = corridors::minus(origins[to], origins[from]);
    lemma_stocked(files, c, board, origins);
    assert(wide.contains(p));
    assert(routing::seam(c, model.cells, RouteDir::E).contains(p));
    assert(keeps_link(model, origins, p, RouteDir::E, link));
    let i = choose|i: int|
        0 <= i < link.candidates.len() && origins[to].0 == origins[from].0 + (
        #[trigger] link.candidates[i]).right_delta.0 && origins[to].1 == origins[from].1 + link.candidates[i].right_delta.1;
    assert(deltas::pair_vector(link.candidates[i].right_delta) == gap);
    lemma_fitting(link.candidates, gap);
    let chosen = board::first_fitting(link.candidates, gap);
    let k = choose|k: int| 0 <= k < link.candidates.len() && link.candidates[k] == chosen;
    let pieces = board.pieces@;
    assert(order[from] == p && order[to] == q);
    assert(list[from].name == model.pieces[p] && list[to].name == model.pieces[q]);
    assert(list[order.len() + j] == board::connector_piece(files, model.pieces, origins, p));
    assert(board::is_board_piece(pieces[from], list[from]));
    assert(board::is_board_piece(pieces[to], list[to]));
    assert(board::is_board_piece(pieces[order.len() + j], list[order.len() + j]));
    assert(lies_off(pieces[to], pieces[from], link.candidates[k].right_delta));
    assert(lies_off(pieces[order.len() + j], pieces[from], link.candidates[k].connector_delta));
}

#[verifier::spinoff_prover]
#[verifier::rlimit(60)]
proof fn lemma_joined_down(
    files: &PatternFiles,
    c: ConstructionModel,
    board: PublishedBoard,
    origins: Seq<Vector>,
    p: Place,
)
    requires
        is_built(files, c, board, origins),
        routing::seam(c, layout::layout_of(c)->Ok_0.cells, RouteDir::S).contains(p),
    ensures
        ({
            let order = cellmap::ordered(layout::layout_of(c)->Ok_0.pieces.dom());
            is_joined_down(files, board, order.index_of(p), order.index_of(lanes::moved(p, RouteDir::S)))
        }),
{
    let model = layout::layout_of(c)->Ok_0;
    let order = cellmap::ordered(model.pieces.dom());
    let q = lanes::moved(p, RouteDir::S);
    let (from, to) = (order.index_of(p), order.index_of(q));
    let list = all_models(files, c, origins);
    let link = board::link_at(files, model.pieces, RouteDir::S, p)->Ok_0;
    lemma_stocked(files, c, board, origins);
    assert(keeps_link(model, origins, p, RouteDir::S, link));
    let i = choose|i: int|
        0 <= i < link.candidates.len() && origins[to].0 == origins[from].0 + (
        #[trigger] link.candidates[i]).right_delta.0 && origins[to].1 == origins[from].1 + link.candidates[i].right_delta.1;
    let pieces = board.pieces@;
    assert(order[from] == p && order[to] == q);
    assert(list[from].name == model.pieces[p] && list[to].name == model.pieces[q]);
    assert(board::is_board_piece(pieces[from], list[from]));
    assert(board::is_board_piece(pieces[to], list[to]));
    assert(lies_off(pieces[to], pieces[from], link.candidates[i].right_delta));
}

/// A board has a piece for each place of the layout, with that place's pattern, and a connector
/// for each pair of places joined from west to east; the pieces of joined places lie as a
/// candidate of their link says.
#[verifier::spinoff_prover]
#[verifier::rlimit(60)]
pub proof fn law_board_keeps_links(
    files: &PatternFiles,
    c: ConstructionModel,
    options: BoardBuildOptions,
    board: PublishedBoard,
)
    requires
        board::is_board_result(files, c, options, Ok::<PublishedBoard, BoardError>(board)),
    ensures
        ({
            let model = layout::layout_of(c)->Ok_0;
            let order = cellmap::ordered(model.pieces.dom());
            let wide = layout::seam_order(c, model, RouteDir::E);
            &&& layout::layout_of(c) is Ok
            &&& board.pieces@.len() == order.len() + wide.len()
            &&& forall|i: int|
                0 <= i < order.len() ==> (#[trigger] board.pieces@[i]).spec_name@ == model.pieces[order[i]]
            &&& forall|p: Place|
                model.pieces.dom().contains(p) <==> #[trigger] order.contains(p)
            &&& forall|p: Place|
                routing::seam(c, model.cells, RouteDir::E).contains(p) <==> #[trigger] wide.contains(p)
            &&& forall|j: int|
                0 <= j < wide.len() ==> is_joined_across(
                    files,
                    board,
                    order.index_of(#[trigger] wide[j]),
                    order.index_of(lanes::moved(wide[j], RouteDir::E)),
                    order.len() + j,
                )
            &&& forall|p: Place| #[trigger]
                routing::seam(c, model.cells, RouteDir::S).contains(p) ==> is_joined_down(
                    files,
                    board,
                    order.index_of(p),
                    order.index_of(lanes::moved(p, RouteDir::S)),
                )
        }),
{
    lemma_built(files, c, options, board);
    let origins = choose|origins: Seq<Vector>| #[trigger] is_built(files, c, board, origins);
    let model = layout::layout_of(c)->Ok_0;
    let order = cellmap::ordered(model.pieces.dom());
    let wide = layout::seam_order(c, model, RouteDir::E);
    let list = all_models(files, c, origins);
    lemma_stocked(files, c, board, origins);
    assert forall|i: int| 0 <= i < order.len() implies (#[trigger] board.pieces@[i]).spec_name@
        == model.pieces[order[i]] by {
        assert(board::is_board_piece(board.pieces@[i], list[i]));
    }
    assert forall|j: int| 0 <= j < wide.len() implies is_joined_across(
        files,
        board,
        order.index_of(#[trigger] wide[j]),
        order.index_of(lanes::moved(wide[j], RouteDir::E)),
        order.len() + j,
    ) by {
        lemma_joined_across(files, c, board, origins, j);
    }
    assert forall|p: Place| #[trigger]
        routing::seam(c, model.cells, RouteDir::S).contains(p) implies is_joined_down(
        files,
        board,
        order.index_of(p),
        order.index_of(lanes::moved(p, RouteDir::S)),
    ) by {
        lemma_joined_down(files, c, board, origins, p);
    }
}

} // verus!
