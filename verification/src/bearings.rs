//! Directions: what the sides of instances, tiles and connectors have to do with their wires.

use crate::cellmap::Place;
use crate::compiler;
use crate::compiler::MacroModel;
use crate::contracts;
use crate::inputs;
use crate::lanes;
use crate::library;
use crate::matching;
use crate::published::PatternFiles;
use crate::router_basis;
use crate::routing;
use crate::routing::{RouteDir, RouteDirs};
use vstd::prelude::*;

verus! {

/// Every port of an instance faces the wire to which its contract binds it, and only ports of the
/// contract face anywhere. The instance's pattern is the one of the contract.
pub proof fn law_ports_face_their_wires(kind: MacroModel)
    requires
        contracts::logical_contract(kind) is Some,
    ensures
        ({
            let contract = contracts::logical_contract(kind)->Some_0;
            &&& compiler::published_name(kind) == Some(contract.spec_name)
            &&& forall|i: int|
                0 <= i < contract.bindings.len() ==> (routing::port_dir(kind, (#[trigger] contract.bindings[i]).0)
                    matches Ok(dir) && routing::dir_text(dir) == contract.bindings[i].1)
            &&& forall|port: Seq<char>| #[trigger]
                routing::port_dir(kind, port) is Ok ==> exists|i: int|
                    0 <= i < contract.bindings.len() && (#[trigger] contract.bindings[i]).0 == port
        }),
{
    let contract = contracts::logical_contract(kind)->Some_0;
    lemma_port_names();
    assert forall|i: int| 0 <= i < contract.bindings.len() implies (routing::port_dir(
        kind,
        (#[trigger] contract.bindings[i]).0,
    ) matches Ok(dir) && routing::dir_text(dir) == contract.bindings[i].1) by {}
    assert forall|port: Seq<char>| #[trigger] routing::port_dir(kind, port) is Ok implies exists|i: int|
        0 <= i < contract.bindings.len() && (#[trigger] contract.bindings[i]).0 == port by {
        let n = contract.bindings.len();
        assert(contract.bindings[0].0 == port || (n > 1 && contract.bindings[1].0 == port) || (n > 2
            && contract.bindings[2].0 == port));
    }
}

/// The names of ports differ.
proof fn lemma_port_names()
    ensures
        "in"@ != "out"@,
        "lhs"@ != "rhs"@,
        "lhs"@ != "out"@,
        "rhs"@ != "out"@,
        "in"@ != "out0"@,
        "in"@ != "out1"@,
        "out0"@ != "out1"@,
{
    reveal_strlit("in");
    reveal_strlit("out");
    reveal_strlit("lhs");
    reveal_strlit("rhs");
    reveal_strlit("out0");
    reveal_strlit("out1");
    assert("lhs"@[0] != "rhs"@[0] && "lhs"@[0] != "out"@[0] && "rhs"@[0] != "out"@[0]);
    assert("out0"@[3] != "out1"@[3]);
    assert("in"@.len() != "out0"@.len() && "in"@.len() != "out1"@.len());
}

/// The connector between two phases is one whose western wire has the first and whose eastern
/// wire has the second.
pub proof fn lemma_connector_phases(west: i8, east: i8)
    ensures
        routing::connector_for(west, east) matches Some(name) ==> (library::spec_named(name) matches Some(spec)
            && spec.align == Some((Some(east), None::<i8>, Some(west), None::<i8>)) && spec.wires == "EW"@),
{
    lemma_connector_among(library::connector_table().len(), west, east);
}

proof fn lemma_connector_among(k: nat, west: i8, east: i8)
    requires
        k <= library::connector_table().len(),
    ensures
        routing::connector_among(k, west, east) matches Some(name) ==> (library::spec_named(name) matches Some(spec)
            && spec.align == Some((Some(east), None::<i8>, Some(west), None::<i8>)) && spec.wires == "EW"@),
    decreases k,
{
    if k > 0 {
        lemma_connector_among((k - 1) as nat, west, east);
        if routing::connects(library::connector_table()[k - 1].align, west, east) {
            matching::lemma_connector_found(k - 1);
        }
    }
}

/// There is a connector between any two phases, and its phases are those of the wires that it
/// joins: its western wire has the phase of the left piece's eastern one, and its eastern wire
/// that of the right piece's western one.
pub proof fn law_connectors_fit(files: &PatternFiles, left: Seq<char>, right: Seq<char>)
    requires
        routing::connector_between(files, left, right) is Ok,
    ensures
        ({
            let name = routing::connector_between(files, left, right)->Ok_0;
            let phases = library::spec_named(name)->Some_0.align->Some_0;
            &&& library::spec_named(name) is Some
            &&& library::spec_named(name)->Some_0.align is Some
            &&& phases.2 is Some
            &&& phases.0 is Some
            &&& phases.2 == routing::stated_alignment(files, left)->Ok_0.0
            &&& phases.0 == routing::stated_alignment(files, right)->Ok_0.2
        }),
{
    let west = routing::wire_phase(files, left, RouteDir::E)->Ok_0;
    let east = routing::wire_phase(files, right, RouteDir::W)->Ok_0;
    lemma_connector_phases(west, east);
}

/// There is a connector for any two phases.
pub proof fn law_every_phase_is_joined(west: i8, east: i8)
    requires
        -1 <= west <= 1,
        -1 <= east <= 1,
    ensures
        routing::connector_for(west, east) is Some,
{
    reveal_with_fuel(routing::connector_among, 10);
    assert(library::connector_table().len() == 9);
}

/// The direction as it stands in the names of wires.
pub open spec fn letter(dir: RouteDir) -> char {
    inputs::dir_char(dir)
}

/// The two directions of a straight way.
pub open spec fn opposed(a: RouteDir, b: RouteDir) -> bool {
    forall|p: Place| #[trigger] lanes::moved(lanes::moved(p, a), b) == p
}

/// The tile of a cell has a wire in every direction in which the cell leads, and no other. In
/// every row of its relation, a tile of two wires has the same value on both, and one of four
/// wires has the same on those that lie opposite each other, while the two straight ways have
/// any values.
pub open spec fn tile_carries(dirs: RouteDirs, spec: library::SpecModel) -> bool {
    &&& forall|dir: RouteDir| #[trigger] routing::leads(dirs, dir) <==> spec.wires.contains(letter(dir))
    &&& forall|i: int, r: int| #![trigger spec.items[r], spec.wires[i]]
        0 <= r < spec.items.len() && 0 <= i < spec.wires.len() && spec.wires.len() == 2 ==> spec.items[r].len() == 2
            && spec.items[r][0] == spec.items[r][1]
    &&& spec.wires.len() == 4 ==> forall|r: int, i: int, j: int, a: RouteDir, b: RouteDir|
        #![trigger spec.items[r], spec.wires[i], spec.wires[j], letter(a), letter(b)]
        0 <= r < spec.items.len() && 0 <= i < 4 && 0 <= j < 4 && spec.wires[i] == letter(a) && spec.wires[j] == letter(b)
            && opposed(a, b) ==> spec.items[r].len() == 4 && spec.items[r][i] == spec.items[r][j]
    &&& spec.wires.len() == 2 || spec.wires.len() == 4
    &&& spec.items.len() == spec.wires.len()
    &&& spec.items.no_duplicates()
}

/// The names of tiles are those of their directions, and their wires lie there.
pub proof fn law_tiles_lead_where_they_should(dirs: RouteDirs)
    requires
        routing::tile_of(dirs) is Some,
    ensures
        library::spec_named(routing::tile_of(dirs)->Some_0) is Some,
        tile_carries(dirs, library::spec_named(routing::tile_of(dirs)->Some_0)->Some_0),
{
    let name = routing::tile_of(dirs)->Some_0;
    let n: int = if dirs == routing::upright() {
        1
    } else if dirs == routing::level() {
        0
    } else if dirs == routing::both(RouteDir::N, RouteDir::E) {
        2
    } else if dirs == routing::both(RouteDir::N, RouteDir::W) {
        3
    } else if dirs == routing::both(RouteDir::S, RouteDir::W) {
        4
    } else if dirs == routing::both(RouteDir::E, RouteDir::S) {
        5
    } else {
        9
    };
    router_basis::lemma_tile_found(n);
    library::lemma_wire_texts();
    let spec = library::tile_table()[n];
    assert(name == spec.name);
    let (wires, items) = (spec.wires, spec.items);
    assert forall|dir: RouteDir| #[trigger] routing::leads(dirs, dir) <==> wires.contains(letter(dir)) by {
        if wires.len() == 2 {
            assert(wires.contains(wires[0]) && wires.contains(wires[1]));
        } else {
            assert(wires.contains(wires[0]) && wires.contains(wires[1]) && wires.contains(wires[2])
                && wires.contains(wires[3]));
        }
    }
    let (p, q): (Place, Place) = ((0, 0), (0, 0));
    assert forall|r: int, i: int, j: int, a: RouteDir, b: RouteDir|
        #![trigger spec.items[r], spec.wires[i], spec.wires[j], letter(a), letter(b)]
        wires.len() == 4 && 0 <= r < items.len() && 0 <= i < 4 && 0 <= j < 4 && wires[i] == letter(a) && wires[j]
            == letter(b) && opposed(a, b) implies items[r].len() == 4 && items[r][i] == items[r][j] by {
        assert(lanes::moved(lanes::moved(p, a), b) == p);
    }
    assert(items.no_duplicates()) by {
        assert forall|i: int, j: int| 0 <= i < j < items.len() implies items[i] != items[j] by {
            assert(items[i][0] != items[j][0] || items[i][1] != items[j][1]);
        }
    }
}

/// The ways back: a step and the step in the opposite direction lead to where they began, the four
/// directions lead to four different neighbours, and the name of a direction is the letter of its
/// wires.
pub proof fn law_directions(p: Place, a: RouteDir, b: RouteDir)
    ensures
        lanes::moved(lanes::moved(p, a), routing::back(a)) == p,
        lanes::moved(p, a) == lanes::moved(p, b) ==> a == b,
        lanes::heading(p, lanes::moved(p, a)) == a,
        routing::dir_text(a) == seq![letter(a)],
        lanes::moved(p, RouteDir::N).1 < p.1,
        lanes::moved(p, RouteDir::S).1 > p.1,
        lanes::moved(p, RouteDir::W).0 < p.0,
        lanes::moved(p, RouteDir::E).0 > p.0,
{
    library::lemma_wire_texts();
    reveal_strlit("N");
    reveal_strlit("E");
    reveal_strlit("S");
    reveal_strlit("W");
    assert(routing::dir_text(a) =~= seq![letter(a)]);
}

} // verus!
