//! What the patterns of gates do with their values.

use crate::bearings;
use crate::compiler;
use crate::compiler::{EndpointModel, InstanceModel, MacroModel, Values};
use crate::library;
use crate::library::SpecModel;
use crate::matching;
use crate::phases;
use crate::router_basis;
use crate::routing;
use vstd::prelude::*;

verus! {

/// The pattern of an instance.
pub open spec fn pattern_of(kind: MacroModel) -> SpecModel {
    library::spec_named(compiler::published_name(kind)->Some_0)->Some_0
}

/// The values that the ports of an instance have where its wires have those of a row: each port the
/// value of the wire that it faces.
pub open spec fn port_values(kind: MacroModel, id: nat, row: Seq<u8>) -> Values {
    Map::new(
        |end: EndpointModel| end is Port && end->Port_0 == id && routing::port_dir(kind, end->Port_1) is Ok,
        |end: EndpointModel|
            row[pattern_of(kind).wires.index_of(bearings::letter(routing::port_dir(kind, end->Port_1)->Ok_0))] == 1,
    )
}

proof fn lemma_index(wires: Seq<char>, i: int)
    requires
        0 <= i < wires.len(),
        forall|a: int, b: int| #![trigger wires[a], wires[b]] 0 <= a < b < wires.len() ==> wires[a] != wires[b],
    ensures
        wires.index_of(wires[i]) == i,
{
    let k = wires.index_of(wires[i]);
    assert(wires.contains(wires[i]));
    assert(0 <= k < wires.len() && wires[k] == wires[i]);
    if k != i {
        assert(k < i || i < k);
    }
}

proof fn lemma_found(kind: MacroModel)
    requires
        kind !is InputPort,
    ensures
        library::spec_named(compiler::published_name(kind)->Some_0) == Some(
            match kind {
                MacroModel::NotGate => library::tile_table()[6],
                MacroModel::OrGate => library::tile_table()[10],
                MacroModel::Splitter => library::tile_table()[8],
                _ => library::basic_table()[7],
            },
        ),
{
    router_basis::lemma_tile_found(6);
    router_basis::lemma_tile_found(10);
    router_basis::lemma_tile_found(8);
    matching::lemma_enforcer_found();
}

proof fn lemma_ports()
    ensures
        "in"@ != "out"@,
        "lhs"@ != "rhs"@,
        "lhs"@ != "out"@,
        "rhs"@ != "out"@,
        "in"@ != "out0"@,
        "in"@ != "out1"@,
        "out0"@ != "out1"@,
{
    reveal_strlit("in");
    reveal_strlit("out");
    reveal_strlit("lhs");
    reveal_strlit("rhs");
    reveal_strlit("out0");
    reveal_strlit("out1");
    assert("lhs"@[0] != "rhs"@[0] && "lhs"@[0] != "out"@[0] && "rhs"@[0] != "out"@[0]);
    assert("out0"@[3] != "out1"@[3]);
    assert("in"@.len() == 2 && "out"@.len() == 3 && "out0"@.len() == 4 && "out1"@.len() == 4);
}

/// The pattern of an instance allows exactly the rows in which the instance does its work: the ports
/// have values that settle it, and an enforcer has the value one.
pub proof fn law_patterns_do_their_work(kind: MacroModel, id: nat, column: nat, line: nat, row: Seq<u8>)
    requires
        kind !is InputPort,
        phases::is_row(row, pattern_of(kind).wires.len()),
    ensures
        pattern_of(kind).items.contains(row) <==> compiler::instance_settled(
            port_values(kind, id, row),
            InstanceModel { id, kind, column, row: line },
        ) && (kind is Enforcer ==> compiler::carries(
            port_values(kind, id, row),
            EndpointModel::Port(id, "in"@),
            true,
        )),
{
    lemma_found(kind);
    lemma_ports();
    library::lemma_wire_texts();
    let spec = pattern_of(kind);
    let (wires, items) = (spec.wires, spec.items);
    let values = port_values(kind, id, row);
    let port = |name: Seq<char>| EndpointModel::Port(id, name);
    match kind {
        MacroModel::NotGate => {
            lemma_index(wires, 0);
            lemma_index(wires, 1);
            assert(values[port("in"@)] == (row[1] == 1));
            assert(values[port("out"@)] == (row[0] == 1));
            assert(row =~= seq![row[0], row[1]]);
            assert(items.contains(items[0]) && items.contains(items[1]));
            assert(row[0] != row[1] ==> row =~= items[0] || row =~= items[1]);
        },
        MacroModel::OrGate => {
            lemma_index(wires, 0);
            lemma_index(wires, 1);
            lemma_index(wires, 2);
            assert(values[port("out"@)] == (row[0] == 1));
            assert(values[port("lhs"@)] == (row[1] == 1));
            assert(values[port("rhs"@)] == (row[2] == 1));
            assert(row =~= seq![row[0], row[1], row[2]]);
            assert(items.contains(items[0]) && items.contains(items[1]) && items.contains(items[2]) && items.contains(
                items[3],
            ));
            assert((row[0] == 1) == (row[1] == 1 || row[2] == 1) ==> row =~= items[0] || row =~= items[1] || row
                =~= items[2] || row =~= items[3]);
        },
        MacroModel::Splitter => {
            lemma_index(wires, 0);
            lemma_index(wires, 1);
            lemma_index(wires, 2);
            assert(values[port("out0"@)] == (row[0] == 1));
            assert(values[port("out1"@)] == (row[1] == 1));
            assert(values[port("in"@)] == (row[2] == 1));
            assert(row =~= seq![row[0], row[1], row[2]]);
            assert(items.contains(items[0]) && items.contains(items[1]));
            assert(row[0] == row[1] && row[1] == row[2] ==> row =~= items[0] || row =~= items[1]);
        },
        _ => {
            lemma_index(wires, 0);
            assert(values[port("in"@)] == (row[0] == 1));
            assert(row =~= seq![row[0]]);
            assert(items.contains(items[0]));
            assert(row[0] == 1 ==> row =~= items[0]);
        },
    }
}

} // verus!
