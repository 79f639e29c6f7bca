//! How the entries of a certificate stand to the paths of the outside inputs.

use crate::cellmap;
use crate::compiler;
use crate::compiler::{ConstructionModel, EndpointModel};
use crate::inputs;
use crate::inputs::{EntryModel, InputEncodingMode, InputFailure};
use crate::lanes;
use crate::library;
use crate::routing;
use crate::routing::{NetPathWitness, RouteDir, RoutedCell};
use vstd::prelude::*;

verus! {

/// A tile hands a value on between two of its wires, and takes both values.
pub open spec fn hands_on(name: Seq<char>, a: RouteDir, b: RouteDir) -> bool {
    library::spec_named(name) matches Some(spec) && {
        let i = spec.wires.index_of(inputs::dir_char(a));
        let j = spec.wires.index_of(inputs::dir_char(b));
        &&& spec.wires.contains(inputs::dir_char(a))
        &&& spec.wires.contains(inputs::dir_char(b))
        &&& forall|r: int| 0 <= r < spec.items.len() ==> (#[trigger] spec.items[r])[i] == spec.items[r][j]
        &&& exists|r: int| 0 <= r < spec.items.len() && (#[trigger] spec.items[r])[i] == 0
        &&& exists|r: int| 0 <= r < spec.items.len() && (#[trigger] spec.items[r])[i] == 1
    }
}

/// An entry is that of a path: it stands at the path's first cell, a cell of the routing that leads to
/// the second cell and to one other neighbour, from which the input's value comes in.
pub open spec fn is_entry_of(
    c: ConstructionModel,
    cells: Seq<RoutedCell>,
    path: NetPathWitness,
    entry: EntryModel,
) -> bool {
    let way = lanes::places(path.cells@);
    &&& path.from@ == EndpointModel::External(entry.variable)
    &&& entry.target == path.to@
    &&& way.len() > 1
    &&& entry.source == way[0]
    &&& lanes::moved(entry.source, entry.routed_dir) == way[1]
    &&& exists|i: int|
        0 <= i < cells.len() && cellmap::place_of((#[trigger] cells[i]).coord) == entry.source && cells[i].spec_name@
            == entry.source_spec && forall|dir: RouteDir|
            (#[trigger] routing::leads(cells[i].dirs, dir) <==> dir == entry.boundary_dir || dir == entry.routed_dir)
    &&& entry.boundary_dir != entry.routed_dir
    &&& hands_on(entry.source_spec, entry.boundary_dir, entry.routed_dir)
    &&& entry.mode == InputEncodingMode::Variable <==> entry.variable != "const_0"@ && entry.variable != "const_1"@
    &&& entry.mode != InputEncodingMode::Variable ==> inputs::mode_text(entry.mode) == entry.variable
    &&& exists|i: int|
        0 <= i < c.instances.len() && (#[trigger] c.instances[i]).id == entry.target.0 && routing::port_dir(
            c.instances[i].kind,
            entry.target.1,
        ) == Ok::<RouteDir, routing::RoutingFailure>(entry.target_dir) && compiler::published_name(c.instances[i].kind)
            == Some(entry.target_spec)
}

proof fn lemma_last_kind(c: ConstructionModel, k: nat, id: nat)
    requires
        k <= c.instances.len(),
    ensures
        inputs::last_kind(c.instances, k, id) matches Some(kind) ==> exists|i: int|
            0 <= i < k && (#[trigger] c.instances[i]).id == id && c.instances[i].kind == kind,
    decreases k,
{
    if k > 0 && c.instances[k - 1].id != id {
        lemma_last_kind(c, (k - 1) as nat, id);
    }
}

proof fn lemma_last_cell(cells: Seq<RoutedCell>, k: nat, place: cellmap::Place)
    requires
        k <= cells.len(),
    ensures
        inputs::last_cell(cells, k, place) matches Some(cell) ==> exists|i: int|
            0 <= i < k && #[trigger] cells[i] == cell && cellmap::place_of(cell.coord) == place,
    decreases k,
{
    if k > 0 && cellmap::place_of(cells[k - 1].coord) != place {
        lemma_last_cell(cells, (k - 1) as nat, place);
    }
}

proof fn lemma_hands_on(name: Seq<char>, a: RouteDir, b: RouteDir)
    requires
        inputs::projected(name, a, b) == Ok::<inputs::ValuePairs, InputFailure>(inputs::identity_pairs()),
    ensures
        hands_on(name, a, b),
{
    library::lemma_spec_named(name);
    let spec = library::spec_named(name)->Some_0;
    let i = spec.wires.index_of(inputs::dir_char(a));
    let j = spec.wires.index_of(inputs::dir_char(b));
    let pairs = inputs::pairs_of(spec.items, spec.items.len(), i, j);
    assert(pairs == inputs::identity_pairs());
    assert forall|r: int| 0 <= r < spec.items.len() implies (#[trigger] spec.items[r])[i] == spec.items[r][j] by {
        assert(spec.items[r].len() == spec.wires.len());
        assert(spec.items[r][i] <= 1 && spec.items[r][j] <= 1);
        if spec.items[r][i] != spec.items[r][j] {
            if spec.items[r][i] == 0 {
                assert(inputs::some_item(spec.items, spec.items.len(), i, j, 0, 1));
            } else {
                assert(inputs::some_item(spec.items, spec.items.len(), i, j, 1, 0));
            }
        }
    }
    assert(inputs::some_item(spec.items, spec.items.len(), i, j, 0, 0));
    assert(inputs::some_item(spec.items, spec.items.len(), i, j, 1, 1));
}

proof fn lemma_entry(c: ConstructionModel, cells: Seq<RoutedCell>, variable: Seq<char>, path: NetPathWitness)
    requires
        path.from@ == EndpointModel::External(variable),
        inputs::entry_of(c, cells, variable, path) is Ok,
    ensures
        is_entry_of(c, cells, path, inputs::entry_of(c, cells, variable, path)->Ok_0),
{
    let entry = inputs::entry_of(c, cells, variable, path)->Ok_0;
    let way = lanes::places(path.cells@);
    lemma_last_kind(c, c.instances.len(), path.to@.0);
    lemma_last_cell(cells, cells.len(), way[0]);
    let cell = inputs::last_cell(cells, cells.len(), way[0])->Some_0;
    let inward = lanes::heading(way[0], way[1]);
    lemma_hands_on(entry.source_spec, entry.boundary_dir, entry.routed_dir);
    let d = cell.dirs;
    assert(entry.boundary_dir == inputs::other_dir(d, inward));
    assert forall|dir: RouteDir| (#[trigger] routing::leads(d, dir) <==> dir == entry.boundary_dir || dir
        == entry.routed_dir) by {}
    let i = choose|i: int| 0 <= i < cells.len() && #[trigger] cells[i] == cell && cellmap::place_of(cell.coord) == way[0];
    assert(cellmap::place_of(cells[i].coord) == entry.source);
    reveal_strlit("const_0");
    reveal_strlit("const_1");
}

/// The paths that come from outside, in their order.
pub open spec fn lists_outside(paths: Seq<NetPathWitness>, of: Seq<int>, k: nat) -> bool {
    &&& forall|i: int, j: int| #![trigger of[i], of[j]] 0 <= i < j < of.len() ==> of[i] < of[j]
    &&& forall|i: int| 0 <= i < of.len() ==> 0 <= #[trigger] of[i] < k && paths[of[i]].from@ is External
    &&& forall|n: int| 0 <= n < k && (#[trigger] paths[n]).from@ is External ==> of.contains(n)
}

proof fn lemma_entries(c: ConstructionModel, cells: Seq<RoutedCell>, paths: Seq<NetPathWitness>, k: nat) -> (of: Seq<int>)
    requires
        k <= paths.len(),
        inputs::entries_of(c, cells, paths, k) is Ok,
    ensures
        lists_outside(paths, of, k),
        of.len() == inputs::entries_of(c, cells, paths, k)->Ok_0.len(),
        forall|i: int|
            0 <= i < of.len() ==> is_entry_of(
                c,
                cells,
                paths[#[trigger] of[i]],
                inputs::entries_of(c, cells, paths, k)->Ok_0[i],
            ),
    decreases k,
{
    if k == 0 {
        Seq::empty()
    } else {
        let before = lemma_entries(c, cells, paths, (k - 1) as nat);
        let entries = inputs::entries_of(c, cells, paths, k)->Ok_0;
        let earlier = inputs::entries_of(c, cells, paths, (k - 1) as nat)->Ok_0;
        match paths[k - 1].from@ {
            EndpointModel::Port(_, _) => { before },
            EndpointModel::External(variable) => {
                lemma_entry(c, cells, variable, paths[k - 1]);
                let of = before.push(k - 1);
                assert forall|n: int| 0 <= n < k && (#[trigger] paths[n]).from@ is External implies of.contains(n) by {
                    if n < k - 1 {
                        assert(before.contains(n));
                        let i = choose|i: int| 0 <= i < before.len() && before[i] == n;
                        assert(of[i] == n);
                    } else {
                        assert(of[of.len() - 1] == n);
                    }
                }
                assert forall|i: int| 0 <= i < of.len() implies is_entry_of(
                    c,
                    cells,
                    paths[#[trigger] of[i]],
                    entries[i],
                ) by {
                    if i < before.len() {
                        assert(of[i] == before[i] && entries[i] == earlier[i]);
                    }
                }
                of
            },
        }
    }
}

/// There is one entry for each path that comes from outside, in their order, and each is that of its
/// path.
pub proof fn law_entries_are_those_of_paths(
    c: ConstructionModel,
    cells: Seq<RoutedCell>,
    paths: Seq<NetPathWitness>,
    entries: Seq<EntryModel>,
)
    requires
        inputs::entries_of(c, cells, paths, paths.len()) == Ok::<Seq<EntryModel>, InputFailure>(entries),
    ensures
        exists|of: Seq<int>| #[trigger]
            lists_outside(paths, of, paths.len()) && of.len() == entries.len() && forall|i: int|
                0 <= i < of.len() ==> is_entry_of(c, cells, paths[#[trigger] of[i]], entries[i]),
{
    let of = lemma_entries(c, cells, paths, paths.len());
    assert(lists_outside(paths, of, paths.len()));
}

} // verus!
