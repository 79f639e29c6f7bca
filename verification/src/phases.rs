//! What the entries of the library have to do with each other, and where pieces are known to fit.

use crate::bearings;
use crate::candidates;
use crate::library;
use crate::library::SpecModel;
use crate::matching;
use crate::router_basis;
use crate::routing;
use crate::routing::RouteDir;
use crate::text;
use vstd::prelude::*;

verus! {

/// An entry states a phase for each of its wires, and for no other side, and gives it one of the
/// three phases of a wire; the wires of its rules are among its own.
pub open spec fn is_consistent(spec: SpecModel) -> bool {
    &&& spec.align matches Some(align) ==> forall|dir: RouteDir|
        (#[trigger] routing::phase_in(align, dir) is Some <==> spec.wires.contains(bearings::letter(dir)))
    &&& spec.align matches Some(align) ==> forall|dir: RouteDir|
        (#[trigger] routing::phase_in(align, dir) matches Some(phase) ==> -1 <= phase <= 1)
    &&& spec.align is Some <==> spec.size is Some
    &&& forall|i: int, k: int| #![trigger spec.charging[i].0[k]]
        0 <= i < spec.charging.len() && 0 <= k < spec.charging[i].0.len() ==> spec.wires.contains(spec.charging[i].0[k])
    &&& forall|i: int, k: int| #![trigger spec.charging[i].1[k]]
        0 <= i < spec.charging.len() && 0 <= k < spec.charging[i].1.len() ==> spec.wires.contains(spec.charging[i].1[k])
}

proof fn lemma_consistent(spec: SpecModel, i: int)
    requires
        0 <= i < library::part1_table().len(),
        spec == library::part1_table()[i],
    ensures
        is_consistent(spec),
{
    library::lemma_wire_texts();
    let (basic, tiles) = (library::basic_table(), library::tile_table());
    let connectors = library::connector_table();
    assert(spec == (if i < 8 {
        basic[i]
    } else if i < 19 {
        tiles[i - 8]
    } else {
        connectors[i - 19]
    }));
    let wires = spec.wires;
    assert(wires.len() > 0 && wires.contains(wires[0]));
    if wires.len() > 1 {
        assert(wires.contains(wires[1]));
    }
    if wires.len() > 2 {
        assert(wires.contains(wires[2]));
    }
    if wires.len() > 3 {
        assert(wires.contains(wires[3]));
    }
}

/// The entries of the library are consistent.
pub proof fn law_entries_are_consistent(i: int)
    requires
        0 <= i < library::part1_table().len(),
    ensures
        is_consistent(library::part1_table()[i]),
{
    lemma_consistent(library::part1_table()[i], i);
}

/// The tiles are squares of one size, and a connector is as wide as two of them and as high as
/// one; the name of a connector says the phases of its wires, from west to east.
pub proof fn law_sizes_and_names(t: int, k: int)
    requires
        0 <= t < library::tile_table().len(),
        0 <= k < library::connector_table().len(),
    ensures
        ({
            let (tile, connector) = (library::tile_table()[t], library::connector_table()[k]);
            &&& tile.size matches Some(square) && square.0 == square.1 && square.0 == 90 && connector.size == Some(
                (2 * square.0, square.1),
            )
            &&& connector.align matches Some(phases) && phases.0 matches Some(east) && phases.2 matches Some(west)
                && connector.name == "connector "@ + text::signed_decimal(west as int) + " to "@ + text::signed_decimal(
                east as int,
            )
        }),
{
    reveal_strlit("connector ");
    reveal_strlit(" to ");
    reveal_strlit("connector -1 to -1");
    reveal_strlit("connector 0 to -1");
    reveal_strlit("connector 1 to -1");
    reveal_strlit("connector -1 to 0");
    reveal_strlit("connector 0 to 0");
    reveal_strlit("connector 1 to 0");
    reveal_strlit("connector -1 to 1");
    reveal_strlit("connector 0 to 1");
    reveal_strlit("connector 1 to 1");
    let connector = library::connector_table()[k];
    let (east, west) = (connector.align->Some_0.0->Some_0, connector.align->Some_0.2->Some_0);
    assert(text::decimal(0) =~= seq!['0'] && text::decimal(1) =~= seq!['1']);
    assert(text::signed_decimal(-1) =~= seq!['-', '1']);
    assert(connector.name =~= "connector "@ + text::signed_decimal(west as int) + " to "@ + text::signed_decimal(
        east as int,
    ));
}

/// What a pattern of the library does with its wires: which values they have together.
pub open spec fn works_as(n: int, row: Seq<u8>) -> bool {
    if n == 0 {
        true
    } else if n == 1 {
        row[1] == row[2] && row[0] != row[1]
    } else if n == 2 || n == 4 {
        row[0] != row[1]
    } else if n == 3 {
        row[0] == row[1]
    } else if n == 5 {
        row[0] != row[2] && row[1] != row[3]
    } else if n == 6 {
        if row[2] == 1 {
            row[1] == 1
        } else {
            row[0] != row[1]
        }
    } else {
        row[0] == 1
    }
}

/// A row of values for a number of wires.
pub open spec fn is_row(row: Seq<u8>, n: nat) -> bool {
    row.len() == n && forall|i: int| 0 <= i < n ==> #[trigger] row[i] <= 1
}

/// The relation of a gadget has exactly the rows in which the gadget does its work: a charger takes
/// any value; a splitter hands its value on and its opposite to the side; a charged turn or an
/// inverter turns a value into its opposite, or keeps it; a crossing inverts both its ways; the
/// logic gate has the value one in the north where it has it in the west, and else opposite values
/// in the east and the north; an enforcer takes the value one.
pub proof fn law_gadgets_work(n: int, row: Seq<u8>)
    requires
        0 <= n < library::basic_table().len(),
        is_row(row, library::basic_table()[n].wires.len()),
    ensures
        library::basic_table()[n].items.contains(row) == works_as(n, row),
{
    library::lemma_wire_texts();
    let items = library::basic_table()[n].items;
    if items.len() > 0 {
        assert(items.contains(items[0]));
    }
    if items.len() > 1 {
        assert(items.contains(items[1]));
    }
    if items.len() > 2 {
        assert(items.contains(items[2]) && items.contains(items[3]));
    }
    if works_as(n, row) {
        let len = row.len();
        if len == 1 {
            assert(row =~= seq![row[0]]);
            assert(row =~= items[0] || row =~= items[1]);
        } else if len == 2 {
            assert(row =~= seq![row[0], row[1]]);
            assert(row =~= items[0] || row =~= items[1]);
        } else if len == 3 {
            assert(row =~= seq![row[0], row[1], row[2]]);
            if n == 1 {
                assert(row =~= items[0] || row =~= items[1]);
            } else {
                assert(row =~= items[0] || row =~= items[1] || row =~= items[2] || row =~= items[3]);
            }
        } else {
            assert(row =~= seq![row[0], row[1], row[2], row[3]]);
            assert(row =~= items[0] || row =~= items[1] || row =~= items[2] || row =~= items[3]);
        }
    }
}

/// A piece that lies a number of cells further on continues a wire: the distance agrees with the
/// phases at which the wire leaves the one piece and enters the next.
pub open spec fn keeps_phase(distance: int, leaving: Option<i8>, entering: Option<i8>) -> bool {
    leaving is Some && entering is Some && (distance - (leaving->0 - entering->0)) % 3 == 0
}

proof fn lemma_all_found()
    ensures
        forall|t: int|
            0 <= t < library::tile_table().len() ==> library::spec_named((#[trigger] library::tile_table()[t]).name)
                == Some(library::tile_table()[t]),
        forall|k: int|
            0 <= k < library::connector_table().len() ==> library::spec_named(
                (#[trigger] library::connector_table()[k]).name,
            ) == Some(library::connector_table()[k]),
{
    assert forall|t: int| 0 <= t < library::tile_table().len() implies library::spec_named(
        (#[trigger] library::tile_table()[t]).name,
    ) == Some(library::tile_table()[t]) by {
        router_basis::lemma_tile_found(t);
    }
    assert forall|k: int| 0 <= k < library::connector_table().len() implies library::spec_named(
        (#[trigger] library::connector_table()[k]).name,
    ) == Some(library::connector_table()[k]) by {
        matching::lemma_connector_found(k);
    }
}

/// Where one pattern is known to fit below another, it continues the wire of the upper one, which
/// it overlaps by at most a few cells, and the known places are one period of the wire apart.
pub proof fn law_known_places_below(top: Seq<char>, bottom: Seq<char>, i: int)
    requires
        0 <= i < candidates::known_down(top, bottom).len(),
    ensures
        ({
            let known = candidates::known_down(top, bottom);
            let delta = known[i].bottom_delta;
            let (above, below) = (library::spec_named(top)->Some_0, library::spec_named(bottom)->Some_0);
            &&& library::spec_named(top) is Some && above.align is Some && above.size is Some
            &&& library::spec_named(bottom) is Some && below.align is Some
            &&& delta.0 == 0
            &&& keeps_phase(
                delta.1 as int,
                routing::phase_in(above.align->Some_0, RouteDir::S),
                routing::phase_in(below.align->Some_0, RouteDir::N),
            )
            &&& above.size->Some_0.1 - 12 <= delta.1 <= above.size->Some_0.1
            &&& i + 1 < known.len() ==> known[i + 1].bottom_delta.1 == delta.1 + 3
        }),
{
    lemma_all_found();
    let tiles = library::tile_table();
    let (a, b) = (library::spec_named(top), library::spec_named(bottom));
    assert(a == Some(tiles[1]) || a == Some(tiles[4]) || a == Some(tiles[5]) || a == Some(tiles[8]) || a == Some(tiles[9])
        || a == Some(tiles[10]));
    assert(b == Some(tiles[1]) || b == Some(tiles[2]) || b == Some(tiles[3]) || b == Some(tiles[8]) || b == Some(tiles[9])
        || b == Some(tiles[10]));
}

/// Where one pattern is known to fit beside another, the connector lies right at the edge of the
/// left one and carries its phase on; the right one continues the connector's wire, overlaps it by
/// at most a few cells, and the known places between tiles are one period of the wire apart.
pub proof fn law_known_places_beside(left: Seq<char>, connector: Seq<char>, right: Seq<char>, i: int)
    requires
        0 <= i < candidates::known_across(left, connector, right).len(),
    ensures
        ({
            let known = candidates::known_across(left, connector, right);
            let (between, beyond) = (known[i].connector_delta, known[i].right_delta);
            let (a, b) = (library::spec_named(left)->Some_0, library::spec_named(connector)->Some_0);
            let c = library::spec_named(right)->Some_0;
            &&& library::spec_named(left) is Some && a.align is Some && a.size is Some
            &&& library::spec_named(connector) is Some && b.align is Some && b.size is Some
            &&& library::spec_named(right) is Some
            &&& routing::phase_in(a.align->Some_0, RouteDir::E) is Some
            &&& routing::phase_in(a.align->Some_0, RouteDir::E) == routing::phase_in(b.align->Some_0, RouteDir::W)
            &&& between.0 == a.size->Some_0.0 && between.1 == 0
            &&& a.size->Some_0.0 + b.size->Some_0.0 - 12 <= beyond.0 <= a.size->Some_0.0 + b.size->Some_0.0
            &&& (beyond.0 - between.0) % 3 == 0
            &&& c.align matches Some(align) ==> beyond.1 == 0 && routing::phase_in(align, RouteDir::W)
                == routing::phase_in(b.align->Some_0, RouteDir::E) && keeps_phase(
                beyond.0 - between.0,
                routing::phase_in(b.align->Some_0, RouteDir::E),
                routing::phase_in(align, RouteDir::W),
            ) && (i + 1 < known.len() ==> known[i + 1].right_delta.0 == beyond.0 + 3)
        }),
{
    lemma_all_found();
    matching::lemma_enforcer_found();
    let (tiles, connectors) = (library::tile_table(), library::connector_table());
    let enforcer = library::basic_table()[7];
    let (a, c) = (library::spec_named(left), library::spec_named(right));
    let b = library::spec_named(connector);
    assert(a == Some(tiles[0]) || a == Some(tiles[2]) || a == Some(tiles[5]) || a == Some(tiles[6]) || a == Some(tiles[8])
        || a == Some(tiles[9]) || a == Some(tiles[10]));
    assert(c == Some(tiles[0]) || c == Some(tiles[3]) || c == Some(tiles[4]) || c == Some(tiles[6]) || c == Some(tiles[9])
        || c == Some(enforcer));
    assert(b == Some(connectors[1]) || b == Some(connectors[3]) || b == Some(connectors[4]) || b == Some(connectors[5])
        || b == Some(connectors[6]) || b == Some(connectors[7]) || b == Some(connectors[8]));
}

} // verus!
