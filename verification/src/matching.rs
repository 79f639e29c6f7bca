//! The contracts match the published relations, so that the construction of a formula
//! passes every check that comes before its routing.

use crate::bits;
use crate::certificate;
use crate::circuit;
use crate::circuit::CnfModel;
use crate::compiler;
use crate::compiler::MacroModel;
use crate::contracts;
use crate::contracts::{ContractModel, WireRow};
use crate::library;
use crate::library::SpecModel;
use crate::netlists;
use crate::relations;
use crate::router_basis;
use crate::strmap;
use vstd::prelude::*;

verus! {

/// The contract and the pattern have the same wires, and allow the same values on them.
pub open spec fn agrees(contract: ContractModel, spec: SpecModel) -> bool {
    &&& library::spec_named(contract.spec_name) == Some(spec)
    &&& forall|wire: Seq<char>| #[trigger]
        contracts::bound_wires(contract).contains(wire) <==> relations::char_names(spec.wires).contains(wire)
    &&& forall|row: WireRow| #[trigger]
        contracts::published_rows(spec, spec.items.len()).contains(row) <==> contracts::contract_rows(
            contract,
            bits::two_to(contract.bindings.len()),
        ).contains(row)
}

/// A contract that agrees with its pattern is found to match.
proof fn lemma_agrees(contract: ContractModel, spec: SpecModel)
    requires
        agrees(contract, spec),
    ensures
        contracts::validation(contract) matches Ok(report) && report.relation_matches,
{
    let a = contracts::bound_wires(contract);
    let b = relations::char_names(spec.wires);
    strmap::lemma_sorted_list(a);
    strmap::lemma_sorted_list(b);
    assert(strmap::is_sorted_list_of(strmap::sorted_list(a), b));
    assert(contracts::published_rows(spec, spec.items.len()) =~= contracts::contract_rows(
        contract,
        bits::two_to(contract.bindings.len()),
    ));
}

/// The digits of small numbers.
proof fn lemma_digits()
    ensures
        bits::two_to(1) == 2,
        bits::two_to(2) == 4,
        bits::two_to(3) == 8,
        bits::two_to(4) == 16,
        forall|mask: nat|
            mask < 16 ==> #[trigger] bits::mask_bit(mask, 0) == (mask % 2 == 1) && bits::mask_bit(mask, 1) == ((mask / 2)
                % 2 == 1) && bits::mask_bit(mask, 2) == ((mask / 4) % 2 == 1) && bits::mask_bit(mask, 3) == ((mask / 8)
                % 2 == 1),
{
    reveal_with_fuel(bits::two_to, 5);
    reveal_with_fuel(bits::shifted, 5);
}

/// A contract that hands the value of one wire to another agrees with such a pattern.
proof fn lemma_identity(label: Seq<char>, spec: SpecModel, a: char, b: char)
    requires
        library::spec_named(spec.name) == Some(spec),
        a == 'E' || a == 'N' || a == 'W' || a == 'S',
        b == 'E' || b == 'N' || b == 'W' || b == 'S',
        a != b,
        spec.wires == seq![a, b] || spec.wires == seq![b, a],
        spec.items == seq![seq![0u8, 0u8], seq![1u8, 1u8]],
    ensures
        agrees(contracts::identity_contract(label, spec.name, seq![a], seq![b]), spec),
{
    let contract = contracts::identity_contract(label, spec.name, seq![a], seq![b]);
    let wires = contracts::bound_wires(contract);
    let names = relations::char_names(spec.wires);
    library::lemma_wire_texts();
    lemma_digits();
    assert(wires =~= seq![seq![a], seq![b]]);
    assert(seq![a][0] != seq![b][0]);
    assert forall|wire: Seq<char>| #[trigger] wires.contains(wire) <==> names.contains(wire) by {
        assert(wires[0] == seq![a] && wires[1] == seq![b]);
        if spec.wires == seq![a, b] {
            assert(names[0] == seq![a] && names[1] == seq![b]);
        } else {
            assert(names[0] == seq![b] && names[1] == seq![a]);
        }
    }
    reveal_with_fuel(contracts::port_values, 3);
    reveal_with_fuel(contracts::wire_values, 3);
    reveal_with_fuel(contracts::item_row, 3);
    let low = contracts::item_row(spec.wires, spec.items[0], 2);
    let high = contracts::item_row(spec.wires, spec.items[1], 2);
    assert(contracts::allows_row(contract, 0, low));
    assert(contracts::allows_row(contract, 3, high));
    assert forall|row: WireRow| #[trigger]
        contracts::published_rows(spec, spec.items.len()).contains(row) <==> contracts::contract_rows(
            contract,
            bits::two_to(contract.bindings.len()),
        ).contains(row) by {
        if contracts::published_rows(spec, spec.items.len()).contains(row) {
            assert(row == low || row == high);
        }
        if contracts::contract_rows(contract, 4).contains(row) {
            let mask = choose|mask: nat| mask < 4 && #[trigger] contracts::allows_row(contract, mask, row);
            let v = bits::mask_bit(mask, 0);
            assert(row == if v { high } else { low });
            assert(spec.items[0] == seq![0u8, 0u8]);
            assert(spec.items[1] == seq![1u8, 1u8]);
        }
    }
}
/// A contract whose one port must carry true agrees with such a pattern.
proof fn lemma_required(contract: ContractModel, spec: SpecModel, port: Seq<char>)
    requires
        library::spec_named(contract.spec_name) == Some(spec),
        contract.bindings.len() == 1,
        contract.bindings[0].0 == port,
        contract.bindings[0].1 == "W"@,
        contract.semantics == contracts::SemanticsModel::RequireTrue(port),
        spec.wires == "W"@,
        spec.items == seq![seq![1u8]],
    ensures
        agrees(contract, spec),
{
    let wires = contracts::bound_wires(contract);
    let names = relations::char_names(spec.wires);
    library::lemma_wire_texts();
    lemma_digits();
    assert(wires =~= names);
    reveal_with_fuel(contracts::port_values, 2);
    reveal_with_fuel(contracts::wire_values, 2);
    reveal_with_fuel(contracts::item_row, 2);
    let high = contracts::item_row(spec.wires, spec.items[0], 1);
    assert(contracts::allows_row(contract, 1, high));
    assert forall|row: WireRow| #[trigger]
        contracts::published_rows(spec, spec.items.len()).contains(row) <==> contracts::contract_rows(
            contract,
            bits::two_to(contract.bindings.len()),
        ).contains(row) by {
        if contracts::published_rows(spec, spec.items.len()).contains(row) {
            assert(row == high);
        }
        if contracts::contract_rows(contract, 2).contains(row) {
            let mask = choose|mask: nat| mask < 2 && #[trigger] contracts::allows_row(contract, mask, row);
            assert(row == high);
            assert(spec.items[0] == seq![1u8]);
        }
    }
}

/// The contract of NOT gates agrees with its pattern.
proof fn lemma_not(spec: SpecModel)
    requires
        library::spec_named("NOT gate tile"@) == Some(spec),
        spec.wires == "EW"@,
        spec.items == seq![seq![0u8, 1u8], seq![1u8, 0u8]],
    ensures
        agrees(contracts::logical_contract(MacroModel::NotGate)->Some_0, spec),
{
    let contract = contracts::logical_contract(MacroModel::NotGate)->Some_0;
    let wires = contracts::bound_wires(contract);
    let names = relations::char_names(spec.wires);
    library::lemma_wire_texts();
    compiler::lemma_port_names();
    lemma_digits();
    assert(wires =~= seq!["W"@, "E"@]);
    assert forall|wire: Seq<char>| #[trigger] wires.contains(wire) <==> names.contains(wire) by {
        assert(wires[0] == "W"@ && wires[1] == "E"@);
        assert(names[0] == "E"@ && names[1] == "W"@);
    }
    reveal_with_fuel(contracts::port_values, 3);
    reveal_with_fuel(contracts::wire_values, 3);
    reveal_with_fuel(contracts::item_row, 3);
    assert("E"@[0] != "W"@[0] && "E"@[0] != "N"@[0] && "W"@[0] != "N"@[0]);
    let first = contracts::item_row(spec.wires, spec.items[0], 2);
    let second = contracts::item_row(spec.wires, spec.items[1], 2);
    assert(contracts::allows_row(contract, 1, first));
    assert(contracts::allows_row(contract, 2, second));
    assert forall|row: WireRow| #[trigger]
        contracts::published_rows(spec, spec.items.len()).contains(row) <==> contracts::contract_rows(
            contract,
            bits::two_to(contract.bindings.len()),
        ).contains(row) by {
        if contracts::published_rows(spec, spec.items.len()).contains(row) {
            assert(row == first || row == second);
        }
        if contracts::contract_rows(contract, 4).contains(row) {
            let mask = choose|mask: nat| mask < 4 && #[trigger] contracts::allows_row(contract, mask, row);
            assert(row == if bits::mask_bit(mask, 0) {
                first
            } else {
                second
            });
            assert(spec.items[0] == seq![0u8, 1u8]);
            assert(spec.items[1] == seq![1u8, 0u8]);
        }
    }
}

/// The wires of the gates and splitters with three ports.
proof fn lemma_three_wires(contract: ContractModel, spec: SpecModel, first: Seq<char>, second: Seq<char>, third: Seq<char>)
    requires
        contracts::bound_wires(contract) == seq![first, second, third],
        (first == "N"@ && second == "S"@ && third == "E"@) || (first == "S"@ && second == "E"@ && third == "N"@),
        spec.wires == "ENS"@,
    ensures
        forall|wire: Seq<char>| #[trigger]
            contracts::bound_wires(contract).contains(wire) <==> relations::char_names(spec.wires).contains(wire),
{
    let wires = contracts::bound_wires(contract);
    let names = relations::char_names(spec.wires);
    library::lemma_wire_texts();
    assert forall|wire: Seq<char>| #[trigger] wires.contains(wire) <==> names.contains(wire) by {
        assert(wires[0] == first && wires[1] == second && wires[2] == third);
        assert(names[0] == "E"@ && names[1] == "N"@ && names[2] == "S"@);
    }
}

/// The values of the wires in the east, in the north and in the south.
pub open spec fn three_values(east: bool, north: bool, south: bool) -> WireRow {
    WireRow { east: Some(east), north: Some(north), west: None, south: Some(south) }
}

proof fn lemma_item_three(item: Seq<u8>)
    ensures
        contracts::item_row("ENS"@, item, 3) == three_values(item[0] == 1, item[1] == 1, item[2] == 1),
{
    library::lemma_wire_texts();
    assert("E"@[0] != "N"@[0] && "E"@[0] != "S"@[0] && "N"@[0] != "S"@[0] && "W"@[0] != "S"@[0]);
    reveal_with_fuel(contracts::item_row, 4);
}

/// The values that a number gives a gate, or a splitter, with three ports.
proof fn lemma_or_values(mask: nat, row: WireRow)
    requires
        mask < 8,
    ensures
        contracts::allows_row(contracts::logical_contract(MacroModel::OrGate)->Some_0, mask, row) <==> (
        bits::mask_bit(mask, 2) == (bits::mask_bit(mask, 0) || bits::mask_bit(mask, 1)) && row == three_values(
            bits::mask_bit(mask, 2),
            bits::mask_bit(mask, 0),
            bits::mask_bit(mask, 1),
        )),
{
    library::lemma_wire_texts();
    compiler::lemma_port_names();
    assert("E"@[0] != "N"@[0] && "E"@[0] != "S"@[0] && "N"@[0] != "S"@[0] && "W"@[0] != "S"@[0]);
    reveal_with_fuel(contracts::port_values, 4);
    reveal_with_fuel(contracts::wire_values, 4);
}

proof fn lemma_split_values(mask: nat, row: WireRow)
    requires
        mask < 8,
    ensures
        contracts::allows_row(contracts::logical_contract(MacroModel::Splitter)->Some_0, mask, row) <==> (
        bits::mask_bit(mask, 1) == bits::mask_bit(mask, 0) && bits::mask_bit(mask, 2) == bits::mask_bit(mask, 0)
            && row == three_values(
            bits::mask_bit(mask, 1),
            bits::mask_bit(mask, 2),
            bits::mask_bit(mask, 0),
        )),
{
    library::lemma_wire_texts();
    netlists::lemma_splitter_names();
    assert("E"@[0] != "N"@[0] && "E"@[0] != "S"@[0] && "N"@[0] != "S"@[0] && "W"@[0] != "S"@[0]);
    reveal_with_fuel(contracts::port_values, 4);
    reveal_with_fuel(contracts::wire_values, 4);
}

/// The contract of OR gates agrees with its pattern.
proof fn lemma_or(spec: SpecModel)
    requires
        library::spec_named("OR gate tile"@) == Some(spec),
        spec.wires == "ENS"@,
        spec.items == seq![seq![0u8, 0u8, 0u8], seq![1u8, 0u8, 1u8], seq![1u8, 1u8, 0u8], seq![1u8, 1u8, 1u8]],
    ensures
        agrees(contracts::logical_contract(MacroModel::OrGate)->Some_0, spec),
{
    let contract = contracts::logical_contract(MacroModel::OrGate)->Some_0;
    lemma_digits();
    assert(contracts::bound_wires(contract) =~= seq!["N"@, "S"@, "E"@]);
    lemma_three_wires(contract, spec, "N"@, "S"@, "E"@);
    library::lemma_wire_texts();
    let items = spec.items;
    lemma_item_three(items[0]);
    lemma_item_three(items[1]);
    lemma_item_three(items[2]);
    lemma_item_three(items[3]);
    lemma_or_values(0, three_values(false, false, false));
    lemma_or_values(6, three_values(true, false, true));
    lemma_or_values(5, three_values(true, true, false));
    lemma_or_values(7, three_values(true, true, true));
    assert(bits::mask_bit(0, 0) == false && bits::mask_bit(6, 0) == false && bits::mask_bit(5, 0) && bits::mask_bit(7, 0));
    assert forall|row: WireRow| #[trigger]
        contracts::published_rows(spec, spec.items.len()).contains(row) <==> contracts::contract_rows(
            contract,
            bits::two_to(contract.bindings.len()),
        ).contains(row) by {
        if contracts::published_rows(spec, spec.items.len()).contains(row) {
            let i = choose|i: int| #![trigger spec.items[i]]
                0 <= i < 4 && contracts::item_row(spec.wires, spec.items[i], spec.wires.len()) == row;
            let mask: nat = if i == 0 {
                0
            } else if i == 1 {
                6
            } else if i == 2 {
                5
            } else {
                7
            };
            assert(mask < 8 && contracts::allows_row(contract, mask, row));
        }
        if contracts::contract_rows(contract, 8).contains(row) {
            let mask = choose|mask: nat| mask < 8 && #[trigger] contracts::allows_row(contract, mask, row);
            lemma_or_values(mask, row);
            let i: int = if row == three_values(false, false, false) {
                0
            } else if row == three_values(true, false, true) {
                1
            } else if row == three_values(true, true, false) {
                2
            } else {
                3
            };
            assert(contracts::item_row(spec.wires, spec.items[i], spec.wires.len()) == row);
        }
    }
}

/// The contract of splitters agrees with its pattern.
proof fn lemma_split(spec: SpecModel)
    requires
        library::spec_named("splitter tile"@) == Some(spec),
        spec.wires == "ENS"@,
        spec.items == seq![seq![0u8, 0u8, 0u8], seq![1u8, 1u8, 1u8]],
    ensures
        agrees(contracts::logical_contract(MacroModel::Splitter)->Some_0, spec),
{
    let contract = contracts::logical_contract(MacroModel::Splitter)->Some_0;
    lemma_digits();
    assert(contracts::bound_wires(contract) =~= seq!["S"@, "E"@, "N"@]);
    lemma_three_wires(contract, spec, "S"@, "E"@, "N"@);
    library::lemma_wire_texts();
    let items = spec.items;
    lemma_item_three(items[0]);
    lemma_item_three(items[1]);
    lemma_split_values(0, three_values(false, false, false));
    lemma_split_values(7, three_values(true, true, true));
    assert(bits::mask_bit(0, 0) == false && bits::mask_bit(7, 0));
    assert forall|row: WireRow| #[trigger]
        contracts::published_rows(spec, spec.items.len()).contains(row) <==> contracts::contract_rows(
            contract,
            bits::two_to(contract.bindings.len()),
        ).contains(row) by {
        if contracts::published_rows(spec, spec.items.len()).contains(row) {
            let i = choose|i: int| #![trigger spec.items[i]]
                0 <= i < 2 && contracts::item_row(spec.wires, spec.items[i], spec.wires.len()) == row;
            let mask: nat = if i == 0 {
                0
            } else {
                7
            };
            assert(mask < 8 && contracts::allows_row(contract, mask, row));
        }
        if contracts::contract_rows(contract, 8).contains(row) {
            let mask = choose|mask: nat| mask < 8 && #[trigger] contracts::allows_row(contract, mask, row);
            lemma_split_values(mask, row);
            let i: int = if row == three_values(false, false, false) {
                0
            } else {
                1
            };
            assert(contracts::item_row(spec.wires, spec.items[i], spec.wires.len()) == row);
        }
    }
}
/// The values of all four wires.
pub open spec fn four_values(east: bool, north: bool, west: bool, south: bool) -> WireRow {
    WireRow { east: Some(east), north: Some(north), west: Some(west), south: Some(south) }
}

proof fn lemma_item_four(item: Seq<u8>)
    ensures
        contracts::item_row("ENWS"@, item, 4) == four_values(
            item[0] == 1,
            item[1] == 1,
            item[2] == 1,
            item[3] == 1,
        ),
{
    library::lemma_wire_texts();
    assert("E"@[0] != "N"@[0] && "E"@[0] != "S"@[0] && "N"@[0] != "S"@[0] && "W"@[0] != "S"@[0] && "W"@[0] != "E"@[0]
        && "W"@[0] != "N"@[0]);
    reveal_with_fuel(contracts::item_row, 5);
}

/// The contract of the crossing.
pub open spec fn crossing_contract() -> ContractModel {
    contracts::tile_contracts()[6]
}

proof fn lemma_crossing_values(mask: nat, row: WireRow)
    requires
        mask < 16,
    ensures
        contracts::allows_row(crossing_contract(), mask, row) <==> (bits::mask_bit(mask, 0) == bits::mask_bit(mask, 1)
            && bits::mask_bit(mask, 2) == bits::mask_bit(mask, 3) && row == four_values(
            bits::mask_bit(mask, 1),
            bits::mask_bit(mask, 2),
            bits::mask_bit(mask, 0),
            bits::mask_bit(mask, 3),
        )),
{
    library::lemma_wire_texts();
    assert("E"@[0] != "N"@[0] && "E"@[0] != "S"@[0] && "N"@[0] != "S"@[0] && "W"@[0] != "S"@[0] && "W"@[0] != "E"@[0]
        && "W"@[0] != "N"@[0]);
    reveal_with_fuel(contracts::port_values, 5);
    reveal_with_fuel(contracts::wire_values, 5);
}

/// The contract of the crossing agrees with its pattern.
proof fn lemma_crossing(spec: SpecModel)
    requires
        library::spec_named("crossing tile"@) == Some(spec),
        spec.wires == "ENWS"@,
        spec.items == seq![
            seq![0u8, 0u8, 0u8, 0u8],
            seq![0u8, 1u8, 0u8, 1u8],
            seq![1u8, 0u8, 1u8, 0u8],
            seq![1u8, 1u8, 1u8, 1u8],
        ],
    ensures
        agrees(crossing_contract(), spec),
{
    let contract = crossing_contract();
    let wires = contracts::bound_wires(contract);
    let names = relations::char_names(spec.wires);
    library::lemma_wire_texts();
    lemma_digits();
    assert(wires =~= seq!["W"@, "E"@, "N"@, "S"@]);
    assert forall|wire: Seq<char>| #[trigger] wires.contains(wire) <==> names.contains(wire) by {
        assert(wires[0] == "W"@ && wires[1] == "E"@ && wires[2] == "N"@ && wires[3] == "S"@);
        assert(names[0] == "E"@ && names[1] == "N"@ && names[2] == "W"@ && names[3] == "S"@);
    }
    let items = spec.items;
    lemma_item_four(items[0]);
    lemma_item_four(items[1]);
    lemma_item_four(items[2]);
    lemma_item_four(items[3]);
    lemma_crossing_values(0, four_values(false, false, false, false));
    lemma_crossing_values(12, four_values(false, true, false, true));
    lemma_crossing_values(3, four_values(true, false, true, false));
    lemma_crossing_values(15, four_values(true, true, true, true));
    assert(bits::mask_bit(0, 0) == false && bits::mask_bit(12, 0) == false && bits::mask_bit(3, 0) && bits::mask_bit(
        15,
        0,
    ));
    assert forall|row: WireRow| #[trigger]
        contracts::published_rows(spec, spec.items.len()).contains(row) <==> contracts::contract_rows(
            contract,
            bits::two_to(contract.bindings.len()),
        ).contains(row) by {
        if contracts::published_rows(spec, spec.items.len()).contains(row) {
            let i = choose|i: int| #![trigger spec.items[i]]
                0 <= i < 4 && contracts::item_row(spec.wires, spec.items[i], spec.wires.len()) == row;
            let mask: nat = if i == 0 {
                0
            } else if i == 1 {
                12
            } else if i == 2 {
                3
            } else {
                15
            };
            assert(mask < 16 && contracts::allows_row(contract, mask, row));
        }
        if contracts::contract_rows(contract, 16).contains(row) {
            let mask = choose|mask: nat| mask < 16 && #[trigger] contracts::allows_row(contract, mask, row);
            lemma_crossing_values(mask, row);
            let i: int = if row == four_values(false, false, false, false) {
                0
            } else if row == four_values(false, true, false, true) {
                1
            } else if row == four_values(true, false, true, false) {
                2
            } else {
                3
            };
            assert(contracts::item_row(spec.wires, spec.items[i], spec.wires.len()) == row);
        }
    }
}

/// The enforcer is found by its name.
pub proof fn lemma_enforcer_found()
    ensures
        library::spec_named("enforcer gadget"@) == Some(library::basic_table()[7]),
{
    reveal_strlit("charger gadget");
    reveal_strlit("splitter gadget");
    reveal_strlit("charged turn gadget 1");
    reveal_strlit("charged turn gadget 2");
    reveal_strlit("inverter gadget");
    reveal_strlit("crossing gadget");
    reveal_strlit("logic gate gadget");
    reveal_strlit("enforcer gadget");
    let all = library::part1_table();
    let basic = library::basic_table();
    assert(all[7] == basic[7]);
    assert forall|j: int| 0 <= j < 7 implies (#[trigger] all[j]).name != "enforcer gadget"@ by {
        assert(all[j] == basic[j]);
        assert(basic[j].name.len() != 15 || basic[j].name[0] != 'e');
    }
    library::lemma_named_entry(all, "enforcer gadget"@, 7);
}

/// The names of the connectors differ from each other.
proof fn lemma_connector_names(i: int, j: int)
    requires
        0 <= i < j < library::connector_table().len(),
    ensures
        library::connector_table()[i].name != library::connector_table()[j].name,
{
    reveal_strlit("connector -1 to -1");
    reveal_strlit("connector 0 to -1");
    reveal_strlit("connector 1 to -1");
    reveal_strlit("connector -1 to 0");
    reveal_strlit("connector 0 to 0");
    reveal_strlit("connector 1 to 0");
    reveal_strlit("connector -1 to 1");
    reveal_strlit("connector 0 to 1");
    reveal_strlit("connector 1 to 1");
    let a = library::connector_table()[i].name;
    let b = library::connector_table()[j].name;
    assert(a.len() != b.len() || a[10] != b[10] || a[a.len() - 1] != b[b.len() - 1] || a[a.len() - 2] != b[b.len() - 2]);
}

/// The names of the connectors have a length and a first letter of their own.
proof fn lemma_connector_key(j: int)
    requires
        0 <= j < library::connector_table().len(),
    ensures
        16 <= library::connector_table()[j].name.len() <= 18,
        library::connector_table()[j].name[0] == 'c',
{
    reveal_strlit("connector -1 to -1");
    reveal_strlit("connector 0 to -1");
    reveal_strlit("connector 1 to -1");
    reveal_strlit("connector -1 to 0");
    reveal_strlit("connector 0 to 0");
    reveal_strlit("connector 1 to 0");
    reveal_strlit("connector -1 to 1");
    reveal_strlit("connector 0 to 1");
    reveal_strlit("connector 1 to 1");
}

/// No gadget has a name with that length and that first letter.
proof fn lemma_gadget_key(j: int)
    requires
        0 <= j < library::basic_table().len(),
    ensures
        library::basic_table()[j].name.len() < 16 || library::basic_table()[j].name.len() > 18
            || library::basic_table()[j].name[0] != 'c',
{
    reveal_strlit("charger gadget");
    reveal_strlit("splitter gadget");
    reveal_strlit("charged turn gadget 1");
    reveal_strlit("charged turn gadget 2");
    reveal_strlit("inverter gadget");
    reveal_strlit("crossing gadget");
    reveal_strlit("logic gate gadget");
    reveal_strlit("enforcer gadget");
}

/// A connector is found by its name.
pub proof fn lemma_connector_found(k: int)
    requires
        0 <= k < library::connector_table().len(),
    ensures
        library::spec_named(library::connector_table()[k].name) == Some(library::connector_table()[k]),
{
    let basic = library::basic_table();
    let tiles = library::tile_table();
    let connectors = library::connector_table();
    let all = library::part1_table();
    let name = connectors[k].name;
    let start = (basic.len() + tiles.len()) as int;
    lemma_connector_key(k);
    assert(all[start + k] == connectors[k]);
    assert forall|j: int| 0 <= j < start + k implies (#[trigger] all[j]).name != name by {
        if j < basic.len() {
            assert(all[j] == basic[j]);
            lemma_gadget_key(j);
        } else if j < start {
            assert(all[j] == tiles[j - basic.len()]);
            router_basis::lemma_tile_names(j - basic.len());
        } else {
            assert(all[j] == connectors[j - start]);
            lemma_connector_names(j - start, k);
        }
    }
    library::lemma_named_entry(all, name, start + k);
}

/// The entry of every connector hands the value of its wire in the west to the east.
proof fn lemma_connector_entry(k: int)
    requires
        0 <= k < library::connector_table().len(),
    ensures
        library::connector_table()[k].wires == "EW"@,
        library::connector_table()[k].items == seq![seq![0u8, 0u8], seq![1u8, 1u8]],
{
}

/// Every contract of a gate, a splitter or an enforcer agrees with its pattern.
proof fn lemma_logical_agrees(i: int)
    requires
        0 <= i < contracts::logical_contracts().len(),
    ensures
        contracts::validation(contracts::logical_contracts()[i]) matches Ok(report) && report.relation_matches,
{
    let contract = contracts::logical_contracts()[i];
    if i == 0 {
        router_basis::lemma_tile_found(6);
        lemma_not(library::tile_table()[6]);
        lemma_agrees(contract, library::tile_table()[6]);
    } else if i == 1 {
        router_basis::lemma_tile_found(10);
        lemma_or(library::tile_table()[10]);
        lemma_agrees(contract, library::tile_table()[10]);
    } else if i == 2 {
        router_basis::lemma_tile_found(8);
        lemma_split(library::tile_table()[8]);
        lemma_agrees(contract, library::tile_table()[8]);
    } else {
        lemma_enforcer_found();
        lemma_required(contract, library::basic_table()[7], "in"@);
        lemma_agrees(contract, library::basic_table()[7]);
    }
}

/// Every contract of a tile agrees with its pattern.
proof fn lemma_tile_agrees(i: int)
    requires
        0 <= i < contracts::tile_contracts().len(),
    ensures
        contracts::validation(contracts::tile_contracts()[i]) matches Ok(report) && report.relation_matches,
{
    let contract = contracts::tile_contracts()[i];
    library::lemma_wire_texts();
    if i < 6 {
        let spec = library::tile_table()[i];
        router_basis::lemma_tile_found(i);
        let ends: (char, char) = if i == 0 {
            ('W', 'E')
        } else if i == 1 {
            ('N', 'S')
        } else if i == 2 {
            ('N', 'E')
        } else if i == 3 {
            ('N', 'W')
        } else if i == 4 {
            ('S', 'W')
        } else {
            ('S', 'E')
        };
        lemma_identity(contract.label, spec, ends.0, ends.1);
        assert(contract == contracts::identity_contract(contract.label, spec.name, seq![ends.0], seq![ends.1]));
        lemma_agrees(contract, spec);
    } else if i == 6 {
        router_basis::lemma_tile_found(9);
        lemma_crossing(library::tile_table()[9]);
        lemma_agrees(contract, library::tile_table()[9]);
    } else {
        router_basis::lemma_tile_found(7);
        lemma_required(contract, library::tile_table()[7], "W"@);
        lemma_agrees(contract, library::tile_table()[7]);
    }
}

/// Every contract of a tile or a connector agrees with its pattern.
proof fn lemma_routing_agrees(i: int)
    requires
        0 <= i < contracts::routing_contracts().len(),
    ensures
        contracts::validation(contracts::routing_contracts()[i]) matches Ok(report) && report.relation_matches,
{
    let tiles = contracts::tile_contracts();
    let all = contracts::routing_contracts();
    if i < tiles.len() {
        assert(all[i] == tiles[i]);
        lemma_tile_agrees(i);
    } else {
        let k = i - tiles.len();
        let spec = library::connector_table()[k];
        library::lemma_wire_texts();
        lemma_connector_found(k);
        lemma_connector_entry(k);
        lemma_identity(spec.name, spec, 'W', 'E');
        lemma_agrees(all[i], spec);
    }
}

/// If every contract of a list matches, so do the reports of the list.
proof fn lemma_all_match(list: Seq<ContractModel>, k: nat)
    requires
        k <= list.len(),
        forall|i: int|
            0 <= i < list.len() ==> (contracts::validation(#[trigger] list[i]) matches Ok(report)
                && report.relation_matches),
    ensures
        contracts::validations(list, k) matches Ok(reports) && certificate::all_match(reports),
    decreases k,
{
    if k > 0 {
        lemma_all_match(list, (k - 1) as nat);
        assert(contracts::validation(list[k - 1]) is Ok);
    }
}

/// Every contract matches the published relation of its pattern.
pub proof fn law_contracts_match()
    ensures
        certificate::library_failure() is None,
{
    let logical = contracts::logical_contracts();
    let routing = contracts::routing_contracts();
    assert forall|i: int| 0 <= i < logical.len() implies (contracts::validation(#[trigger] logical[i]) matches Ok(report)
        && report.relation_matches) by {
        lemma_logical_agrees(i);
    }
    assert forall|i: int| 0 <= i < routing.len() implies (contracts::validation(#[trigger] routing[i]) matches Ok(report)
        && report.relation_matches) by {
        lemma_routing_agrees(i);
    }
    lemma_all_match(logical, logical.len());
    lemma_all_match(routing, routing.len());
}

/// The construction of a formula passes every check that comes before its routing. Left out are
/// formulas with several empty clauses, or with one beside an input named `const_0`: there one
/// end drives several nets.
pub proof fn law_formula_passes_checks(formula: CnfModel)
    requires
        netlists::blanks_apart(formula),
    ensures
        certificate::check_failure(compiler::compiled(circuit::circuit_of(formula))) is None,
{
    law_contracts_match();
    netlists::law_formula_structure(formula);
}

} // verus!
