//! How the parts of a whole lie in it.

use crate::assembly;
use crate::composites;
use crate::composites::{LoadedPiece, SharedModel};
use crate::encoding::Cell;
use crate::gadget_verifier::{CellLiteral, GadgetPattern, Port};
use crate::interface_error::InterfaceError;
use crate::lanes;
use crate::published;
use crate::published::PublishedPattern;
use crate::wholes;
use crate::wholes::InterfacePlacement;
use vstd::prelude::*;

verus! {

/// A list gives a role a place.
pub open spec fn gives(list: Seq<(String, isize, isize)>, role: Seq<char>, place: Cell) -> bool {
    exists|m: int| 0 <= m < list.len() && (#[trigger] list[m]).0@ == role && list[m].1 == place.0 && list[m].2 == place.1
}

/// A cell of a piece is alive, where the piece lies in the whole.
pub open spec fn shows(piece: &LoadedPiece, by: Cell, y: int, x: int) -> bool {
    let rows = piece.gadget.target@;
    let (row, column) = (y - by.1, x - by.0);
    0 <= row < rows.len() && 0 <= column < rows[row].len() && rows[row][column]
}

/// Literals are those of a piece, where the piece lies in the whole.
pub open spec fn lie_by(literals: Seq<CellLiteral>, own: Seq<CellLiteral>, by: Cell) -> bool {
    literals.len() == own.len() && forall|i: int|
        0 <= i < own.len() ==> (#[trigger] literals[i]).coord.x == own[i].coord.x + by.0 && literals[i].coord.y
            == own[i].coord.y + by.1 && literals[i].alive == own[i].alive
}

/// A port of the whole is one of a piece.
pub open spec fn is_port_of(port: Port, piece: &LoadedPiece, own: Port, by: Cell) -> bool {
    &&& port.name@ == piece.role@ + "_"@ + own.name@
    &&& forall|state: Seq<char>| #[trigger] port.states@.contains_key(state) <==> own.states@.contains_key(state)
    &&& forall|state: Seq<char>| #[trigger]
        own.states@.contains_key(state) ==> lie_by(port.states@[state]@, own.states@[state]@, by)
}

/// A port of a piece is not joined to another.
pub open spec fn is_open(pieces: Seq<&LoadedPiece>, shared: Seq<SharedModel>, i: int, j: int) -> bool {
    0 <= i < pieces.len() && 0 <= j < pieces[i].gadget.ports@.len() && !composites::is_shared(
        shared,
        pieces[i].role@,
        pieces[i].gadget.ports@[j].name@,
    )
}

/// A port is an open one of some piece.
pub open spec fn is_of_some_piece(
    port: Port,
    pieces: Seq<&LoadedPiece>,
    shared: Seq<SharedModel>,
    by: Seq<Cell>,
) -> bool {
    exists|i: int, j: int| #[trigger]
        is_open(pieces, shared, i, j) && is_port_of(port, pieces[i], pieces[i].gadget.ports@[j], by[i])
}

/// A whole is made of pieces that lie in it, each as far from the others as the placement says: its
/// live cells, its ports and what it fixes are those of the pieces, all moved alike.
pub open spec fn is_overlay(
    gadget: GadgetPattern,
    pieces: Seq<&LoadedPiece>,
    list: Seq<(String, isize, isize)>,
    shared: Seq<SharedModel>,
    from: Cell,
    by: Seq<Cell>,
) -> bool {
    &&& by.len() == pieces.len()
    &&& forall|i: int|
        0 <= i < pieces.len() ==> gives(
            list,
            (#[trigger] pieces[i]).role@,
            (from.0 + by[i].0, from.1 + by[i].1),
        )
    &&& forall|i: int| 0 <= i < by.len() ==> (#[trigger] by[i]).0 >= 0 && by[i].1 >= 0
    &&& exists|i: int| 0 <= i < by.len() && (#[trigger] by[i]).0 == 0
    &&& exists|i: int| 0 <= i < by.len() && (#[trigger] by[i]).1 == 0
    &&& forall|y: int, x: int|
        0 <= y < gadget.target.height && 0 <= x < gadget.target.width ==> #[trigger] gadget.target@[y][x]
            == exists|i: int| 0 <= i < pieces.len() && shows(#[trigger] pieces[i], by[i], y, x)
    &&& forall|n: int|
        0 <= n < gadget.ports@.len() ==> is_of_some_piece(#[trigger] gadget.ports@[n], pieces, shared, by)
    &&& forall|i: int, j: int| #[trigger]
        is_open(pieces, shared, i, j) ==> exists|n: int|
            0 <= n < gadget.ports@.len() && is_port_of(
                #[trigger] gadget.ports@[n],
                pieces[i],
                pieces[i].gadget.ports@[j],
                by[i],
            )
    &&& forall|cell: Cell, alive: bool|
        is_coordinate(cell) ==> (#[trigger] fixes(gadget.base_predecessor_literals@, cell, alive) <==> exists|i: int|
            0 <= i < pieces.len() && fixes(
                (#[trigger] pieces[i]).gadget.base_predecessor_literals@,
                (cell.0 - by[i].0, cell.1 - by[i].1),
                alive,
            ))
}

/// The coordinates of a cell are machine numbers.
pub open spec fn is_coordinate(cell: Cell) -> bool {
    isize::MIN <= cell.0 <= isize::MAX && isize::MIN <= cell.1 <= isize::MAX
}

/// Literals fix a cell.
pub open spec fn fixes(literals: Seq<CellLiteral>, cell: Cell, alive: bool) -> bool {
    exists|i: int| 0 <= i < literals.len() && (#[trigger] literals[i]).coord@ == cell && literals[i].alive == alive
}

proof fn lemma_origin(list: Seq<(String, isize, isize)>, role: Seq<char>, k: nat)
    requires
        k <= list.len(),
    ensures
        wholes::origin_among(list, role, k) matches Some(origin) ==> gives(
            list,
            role,
            (origin.0 as int, origin.1 as int),
        ),
    decreases k,
{
    if k > 0 {
        lemma_origin(list, role, (k - 1) as nat);
        if wholes::origin_among(list, role, (k - 1) as nat) is None && list[k - 1].0@ == role {
            assert(list[k - 1].0@ == role);
        }
    }
}

proof fn lemma_origins(list: Seq<(String, isize, isize)>, pieces: Seq<&LoadedPiece>, k: nat)
    requires
        k <= pieces.len(),
        wholes::origins_for(list, pieces, k) is Ok,
    ensures
        ({
            let origins = wholes::origins_for(list, pieces, k)->Ok_0;
            &&& origins.len() == k
            &&& forall|i: int|
                0 <= i < k ==> gives(
                    list,
                    (#[trigger] pieces[i]).role@,
                    (origins[i].0 as int, origins[i].1 as int),
                )
        }),
    decreases k,
{
    if k > 0 {
        lemma_origins(list, pieces, (k - 1) as nat);
        lemma_origin(list, pieces[k - 1].role@, list.len());
    }
}

proof fn lemma_open_ports(piece: &LoadedPiece, shared: Seq<SharedModel>, i: int, k: nat, pair: (int, int))
    requires
        k <= piece.gadget.ports@.len(),
    ensures
        wholes::open_ports(piece, shared, i, k).contains(pair) <==> pair.0 == i && 0 <= pair.1 < k
            && !composites::is_shared(shared, piece.role@, piece.gadget.ports@[pair.1].name@),
    decreases k,
{
    if k > 0 {
        lemma_open_ports(piece, shared, i, (k - 1) as nat, pair);
        let earlier = wholes::open_ports(piece, shared, i, (k - 1) as nat);
        let list = wholes::open_ports(piece, shared, i, k);
        if !composites::is_shared(shared, piece.role@, piece.gadget.ports@[k - 1].name@) {
            if earlier.contains(pair) {
                let n = choose|n: int| 0 <= n < earlier.len() && earlier[n] == pair;
                assert(list[n] == pair);
            }
            if pair == (i, k - 1) {
                assert(list[list.len() - 1] == pair);
            }
            if list.contains(pair) && pair != (i, k - 1) {
                let n = choose|n: int| 0 <= n < list.len() && list[n] == pair;
                assert(earlier[n] == pair);
            }
        }
    }
}

proof fn lemma_all_open(pieces: Seq<&LoadedPiece>, shared: Seq<SharedModel>, k: nat, pair: (int, int))
    requires
        k <= pieces.len(),
    ensures
        wholes::all_open_ports(pieces, shared, k).contains(pair) <==> pair.0 < k && is_open(pieces, shared, pair.0, pair.1),
    decreases k,
{
    if k > 0 {
        lemma_all_open(pieces, shared, (k - 1) as nat, pair);
        let n = pieces[k - 1].gadget.ports@.len();
        lemma_open_ports(pieces[k - 1], shared, k - 1, n, pair);
        let earlier = wholes::all_open_ports(pieces, shared, (k - 1) as nat);
        let added = wholes::open_ports(pieces[k - 1], shared, k - 1, n);
        let list = earlier + added;
        if earlier.contains(pair) {
            let m = choose|m: int| 0 <= m < earlier.len() && earlier[m] == pair;
            assert(list[m] == pair);
        }
        if added.contains(pair) {
            let m = choose|m: int| 0 <= m < added.len() && added[m] == pair;
            assert(list[earlier.len() + m] == pair);
        }
        if list.contains(pair) {
            let m = choose|m: int| 0 <= m < list.len() && list[m] == pair;
            if m < earlier.len() {
                assert(earlier[m] == pair);
            } else {
                assert(added[m - earlier.len()] == pair);
            }
        }
    }
}

proof fn lemma_cells(
    gadget: GadgetPattern,
    pieces: Seq<&LoadedPiece>,
    origins: Seq<(isize, isize)>,
    pattern: PublishedPattern,
    y: int,
    x: int,
)
    requires
        pieces.len() > 0,
        origins.len() == pieces.len(),
        composites::pieces_wf(pieces),
        published::is_composition(&pattern, wholes::placements_of(pieces, origins)),
        gadget.target@ == published::alive_rows(pattern@),
        gadget.target.width == pattern.width,
        gadget.target.height == pattern.height,
        0 <= y < gadget.target.height,
        0 <= x < gadget.target.width,
    ensures
        gadget.target@[y][x] == exists|i: int|
            0 <= i < pieces.len() && shows(#[trigger] pieces[i], wholes::shift(origins, i), y, x),
{
    let all = wholes::placements_of(pieces, origins);
    let corner = wholes::corner(origins);
    let (left, top, right, bottom) = choose|left: int, top: int, right: int, bottom: int| #[trigger]
        published::is_box(all, left, top, right, bottom) && pattern.width == right - left && pattern.height == bottom - top
            && forall|y: int, x: int|
            0 <= y < pattern.height && 0 <= x < pattern.width ==> published::is_largest_value(
                #[trigger] pattern@[y][x],
                all,
                top + y,
                left + x,
            );
    let xs = Seq::new(origins.len(), |i: int| origins[i].0 as int);
    let ys = Seq::new(origins.len(), |i: int| origins[i].1 as int);
    assembly::lemma_extremes(xs);
    assembly::lemma_extremes(ys);
    let a = choose|k: int| 0 <= k < all.len() && (#[trigger] all[k]).1 == left;
    let b = choose|k: int| 0 <= k < all.len() && (#[trigger] all[k]).2 == top;
    assert(xs[a] == left && ys[b] == top);
    let p = choose|i: int| 0 <= i < xs.len() && #[trigger] xs[i] == lanes::least(xs);
    let q = choose|i: int| 0 <= i < ys.len() && #[trigger] ys[i] == lanes::least(ys);
    assert(left <= all[p].1 && top <= all[q].2);
    assert(corner == (left, top));
    let value = pattern@[y][x];
    assert(published::is_largest_value(value, all, top + y, left + x));
    assert(pattern@[y].len() == pattern.width);
    assert(gadget.target@[y][x] == (value > 0));
    assert forall|i: int| 0 <= i < pieces.len() implies shows(
        #[trigger] pieces[i],
        wholes::shift(origins, i),
        y,
        x,
    ) == (published::placed_value(all[i], top + y, left + x) > 0) by {
        assert(pieces[i].wf());
        assert(pieces[i].gadget.target@ == published::alive_rows(pieces[i].pattern@));
        assert(all[i].0@ == pieces[i].pattern@);
    }
    if value > 0 {
        let k = choose|k: int| 0 <= k < all.len() && published::placed_value(#[trigger] all[k], top + y, left + x) == value;
        assert(shows(pieces[k], wholes::shift(origins, k), y, x));
    }
    if exists|i: int| 0 <= i < pieces.len() && shows(#[trigger] pieces[i], wholes::shift(origins, i), y, x) {
        let k = choose|i: int| 0 <= i < pieces.len() && shows(#[trigger] pieces[i], wholes::shift(origins, i), y, x);
        assert(published::placed_value(all[k], top + y, left + x) > 0);
    }
}

proof fn lemma_fixes(
    gadget: GadgetPattern,
    pieces: Seq<&LoadedPiece>,
    origins: Seq<(isize, isize)>,
    cell: Cell,
    alive: bool,
)
    requires
        gadget.wf(),
        wholes::are_whole_literals(gadget.base_predecessor_literals@, pieces, origins, pieces.len()),
        is_coordinate(cell),
    ensures
        fixes(gadget.base_predecessor_literals@, cell, alive) <==> exists|i: int|
            0 <= i < pieces.len() && fixes(
                (#[trigger] pieces[i]).gadget.base_predecessor_literals@,
                (cell.0 - wholes::shift(origins, i).0, cell.1 - wholes::shift(origins, i).1),
                alive,
            ),
{
    let literals = gadget.base_predecessor_literals@;
    if fixes(literals, cell, alive) {
        let n = choose|n: int| 0 <= n < literals.len() && (#[trigger] literals[n]).coord@ == cell && literals[n].alive == alive;
        assert(literals.contains(literals[n]));
        let (i, j) = choose|i: int, j: int|
            0 <= i < pieces.len() && 0 <= j < pieces[i].gadget.base_predecessor_literals@.len()
                && wholes::is_moved_literal(
                literals[n],
                #[trigger] pieces[i].gadget.base_predecessor_literals@[j],
                wholes::shift(origins, i),
            );
        let own = pieces[i].gadget.base_predecessor_literals@;
        let by = wholes::shift(origins, i);
        assert(own[j].coord@ == (cell.0 - by.0, cell.1 - by.1));
        assert(fixes(own, (cell.0 - by.0, cell.1 - by.1), alive));
    }
    if exists|i: int|
        0 <= i < pieces.len() && fixes(
            (#[trigger] pieces[i]).gadget.base_predecessor_literals@,
            (cell.0 - wholes::shift(origins, i).0, cell.1 - wholes::shift(origins, i).1),
            alive,
        ) {
        let i = choose|i: int|
            0 <= i < pieces.len() && fixes(
                (#[trigger] pieces[i]).gadget.base_predecessor_literals@,
                (cell.0 - wholes::shift(origins, i).0, cell.1 - wholes::shift(origins, i).1),
                alive,
            );
        let own = pieces[i].gadget.base_predecessor_literals@;
        let by = wholes::shift(origins, i);
        let j = choose|j: int|
            0 <= j < own.len() && (#[trigger] own[j]).coord@ == (cell.0 - by.0, cell.1 - by.1) && own[j].alive == alive;
        let moved = CellLiteral {
            coord: crate::encoding::CellCoord { x: (own[j].coord.x + by.0) as isize, y: (own[j].coord.y + by.1) as isize },
            alive,
        };
        assert(wholes::is_moved_literal(moved, pieces[i].gadget.base_predecessor_literals@[j], by));
        assert(wholes::comes_from(moved, pieces, origins, pieces.len()));
        assert(literals.contains(moved));
        let n = choose|n: int| 0 <= n < literals.len() && literals[n] == moved;
        assert(literals[n].coord@ == cell);
    }
}

/// A whole is an overlay of its pieces.
pub proof fn law_whole_overlays_pieces(
    gadget: GadgetPattern,
    name: Seq<char>,
    pieces: Seq<&LoadedPiece>,
    placement: InterfacePlacement,
    shared: Seq<SharedModel>,
)
    requires
        wholes::is_whole_result(Ok::<GadgetPattern, InterfaceError>(gadget), name, pieces, placement, shared),
        composites::pieces_wf(pieces),
    ensures
        exists|from: Cell, by: Seq<Cell>| #[trigger]
            is_overlay(gadget, pieces, placement.piece_origins@, shared, from, by),
{
    let list = placement.piece_origins@;
    let origins = wholes::origins_for(list, pieces, pieces.len())->Ok_0;
    lemma_origins(list, pieces, pieces.len());
    let from = wholes::corner(origins);
    let by = Seq::new(pieces.len(), |i: int| wholes::shift(origins, i));
    let xs = Seq::new(origins.len(), |i: int| origins[i].0 as int);
    let ys = Seq::new(origins.len(), |i: int| origins[i].1 as int);
    assembly::lemma_extremes(xs);
    assembly::lemma_extremes(ys);
    assert forall|i: int| 0 <= i < by.len() implies (#[trigger] by[i]).0 >= 0 && by[i].1 >= 0 by {
        assert(xs[i] >= lanes::least(xs) && ys[i] >= lanes::least(ys));
    }
    let p = choose|i: int| 0 <= i < xs.len() && #[trigger] xs[i] == lanes::least(xs);
    let q = choose|i: int| 0 <= i < ys.len() && #[trigger] ys[i] == lanes::least(ys);
    assert(by[p].0 == 0 && by[q].1 == 0);
    let pattern = choose|pattern: PublishedPattern| #[trigger]
        published::is_composition(&pattern, wholes::placements_of(pieces, origins)) && gadget.target@
            == published::alive_rows(pattern@) && gadget.target.width == pattern.width && gadget.target.height
            == pattern.height;
    assert forall|y: int, x: int|
        0 <= y < gadget.target.height && 0 <= x < gadget.target.width implies #[trigger] gadget.target@[y][x]
        == exists|i: int| 0 <= i < pieces.len() && shows(#[trigger] pieces[i], by[i], y, x) by {
        lemma_cells(gadget, pieces, origins, pattern, y, x);
        assert forall|i: int| 0 <= i < pieces.len() implies shows(#[trigger] pieces[i], by[i], y, x) == shows(
            pieces[i],
            wholes::shift(origins, i),
            y,
            x,
        ) by {}
    }
    let kept = wholes::all_open_ports(pieces, shared, pieces.len());
    assert forall|n: int| 0 <= n < gadget.ports@.len() implies is_of_some_piece(
        #[trigger] gadget.ports@[n],
        pieces,
        shared,
        by,
    ) by {
        let (i, j) = kept[n];
        assert(kept.contains(kept[n]));
        lemma_all_open(pieces, shared, pieces.len(), kept[n]);
        lemma_port(gadget.ports@[n], pieces[i], pieces[i].gadget.ports@[j], by[i]);
        assert(is_open(pieces, shared, i, j) && is_port_of(
            gadget.ports@[n],
            pieces[i],
            pieces[i].gadget.ports@[j],
            by[i],
        ));
    }
    assert forall|i: int, j: int| #[trigger] is_open(pieces, shared, i, j) implies exists|n: int|
        0 <= n < gadget.ports@.len() && is_port_of(
            #[trigger] gadget.ports@[n],
            pieces[i],
            pieces[i].gadget.ports@[j],
            by[i],
        ) by {
        lemma_all_open(pieces, shared, pieces.len(), (i, j));
        let n = choose|n: int| 0 <= n < kept.len() && kept[n] == (i, j);
        lemma_port(gadget.ports@[n], pieces[i], pieces[i].gadget.ports@[j], by[i]);
    }
    assert forall|cell: Cell, alive: bool|
        is_coordinate(cell) implies (#[trigger] fixes(gadget.base_predecessor_literals@, cell, alive) <==> exists|i: int|
            0 <= i < pieces.len() && fixes(
                (#[trigger] pieces[i]).gadget.base_predecessor_literals@,
                (cell.0 - by[i].0, cell.1 - by[i].1),
                alive,
            )) by {
        lemma_fixes(gadget, pieces, origins, cell, alive);
        assert forall|i: int| 0 <= i < pieces.len() implies fixes(
            (#[trigger] pieces[i]).gadget.base_predecessor_literals@,
            (cell.0 - by[i].0, cell.1 - by[i].1),
            alive,
        ) == fixes(
            pieces[i].gadget.base_predecessor_literals@,
            (cell.0 - wholes::shift(origins, i).0, cell.1 - wholes::shift(origins, i).1),
            alive,
        ) by {}
    }
    assert forall|i: int| 0 <= i < pieces.len() implies gives(
        list,
        (#[trigger] pieces[i]).role@,
        (from.0 + by[i].0, from.1 + by[i].1),
    ) by {
        assert((from.0 + by[i].0, from.1 + by[i].1) == (origins[i].0 as int, origins[i].1 as int));
    }
    assert(is_overlay(gadget, pieces, list, shared, from, by));
}

proof fn lemma_port(port: Port, piece: &LoadedPiece, own: Port, by: Cell)
    requires
        wholes::is_moved_port(port, own, piece.role@, by),
    ensures
        is_port_of(port, piece, own, by),
{
    assert forall|state: Seq<char>| #[trigger] port.states@.contains_key(state) <==> own.states@.contains_key(state) by {
        assert(port.states@.dom().contains(state) == own.states@.dom().contains(state));
    }
    assert forall|state: Seq<char>| #[trigger] own.states@.contains_key(state) implies lie_by(
        port.states@[state]@,
        own.states@[state]@,
        by,
    ) by {
        let (literals, from) = (port.states@[state]@, own.states@[state]@);
        assert(wholes::are_moved_literals(literals, from, by));
        assert forall|i: int| 0 <= i < from.len() implies (#[trigger] literals[i]).coord.x == from[i].coord.x + by.0
            && literals[i].coord.y == from[i].coord.y + by.1 && literals[i].alive == from[i].alive by {
            assert(wholes::is_moved_literal(literals[i], from[i], by));
        }
    }
}

} // verus!
