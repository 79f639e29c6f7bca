//! Certificates that outside inputs enter a routing through wires of their own.

use crate::cellmap::Place;
use crate::compiler::{
    CompiledConstruction, ConstructionModel, Endpoint, EndpointModel, InstanceModel, MacroInstance, MacroKind,
    MacroModel, PortRef,
};
use crate::lanes::direction_between;
use crate::published::PatternFiles;
use crate::library::{published_spec_named, PublishedSpec, SpecModel};
use crate::routing::{
    macro_port_dir, push_dirs, push_place, NetPathWitness, RouteDir, RouteDirs, RoutedCell, RoutingError,
    RoutingFailure, RoutingWitness,
};
use crate::strmap::StrMap;
use crate::text::{chars_of, push_bool, push_usize, same_text};
use crate::cellmap;
use crate::compiler;
use crate::lanes;
use crate::library;
use crate::routing;
use crate::tally;
use crate::text;
use vstd::prelude::*;

verus! {

/// What an outside input carries.
#[derive(Debug, Clone, Copy, PartialEq, Eq, PartialOrd, Ord, Hash, Structural)]
pub enum InputEncodingMode {
    Variable,
    ConstantZero,
    ConstantOne,
}

/// The name of a mode.
pub open spec fn mode_text(mode: InputEncodingMode) -> Seq<char> {
    match mode {
        InputEncodingMode::Variable => "variable"@,
        InputEncodingMode::ConstantZero => "const_0"@,
        InputEncodingMode::ConstantOne => "const_1"@,
    }
}

/// The mode of an input, by its name.
pub open spec fn mode_of(variable: Seq<char>) -> InputEncodingMode {
    if variable == "const_0"@ {
        InputEncodingMode::ConstantZero
    } else if variable == "const_1"@ {
        InputEncodingMode::ConstantOne
    } else {
        InputEncodingMode::Variable
    }
}

impl InputEncodingMode {
    /// The name of the mode.
    pub fn as_str(self) -> (name: &'static str)
        ensures
            name@ == mode_text(self),
    {
        match self {
            InputEncodingMode::Variable => "variable",
            InputEncodingMode::ConstantZero => "const_0",
            InputEncodingMode::ConstantOne => "const_1",
        }
    }
}

/// The mode of an input, by its name.
fn input_mode_for_variable(variable: &str) -> (mode: InputEncodingMode)
    ensures
        mode == mode_of(variable@),
{
    if same_text(variable, "const_0") {
        InputEncodingMode::ConstantZero
    } else if same_text(variable, "const_1") {
        InputEncodingMode::ConstantOne
    } else {
        InputEncodingMode::Variable
    }
}

/// Which pairs of values a relation allows on two wires.
#[derive(Debug, Clone, Copy, PartialEq, Eq, Structural)]
pub struct ValuePairs {
    pub zero_zero: bool,
    pub zero_one: bool,
    pub one_zero: bool,
    pub one_one: bool,
}

/// The two wires carry the same value, and each value can occur.
pub open spec fn identity_pairs() -> ValuePairs {
    ValuePairs { zero_zero: true, zero_one: false, one_zero: false, one_one: true }
}

/// A pair that follows others in a list.
pub open spec fn listed_pair(earlier: Seq<char>, present: bool, pair: Seq<char>) -> Seq<char> {
    if !present {
        earlier
    } else if earlier.len() == 1 {
        earlier + pair
    } else {
        earlier + ", "@ + pair
    }
}

/// Pairs of values, as they are written.
pub open spec fn pairs_text(pairs: ValuePairs) -> Seq<char> {
    let a = listed_pair("{"@, pairs.zero_zero, "(0, 0)"@);
    let b = listed_pair(a, pairs.zero_one, "(0, 1)"@);
    let c = listed_pair(b, pairs.one_zero, "(1, 0)"@);
    listed_pair(c, pairs.one_one, "(1, 1)"@) + "}"@
}

fn push_pair(list: &mut String, first: bool, present: bool, pair: &'static str)
    requires
        first == (old(list)@.len() == 1),
        pair@.len() > 0,
        old(list)@.len() >= 1,
    ensures
        final(list)@ == listed_pair(old(list)@, present, pair@),
        final(list)@.len() >= old(list)@.len(),
        present ==> final(list)@.len() > 1,
        !present ==> final(list)@.len() == old(list)@.len(),
{
    if present {
        if !first {
            list.append(", ");
        }
        list.append(pair);
    }
}

fn push_pairs(out: &mut String, pairs: ValuePairs)
    ensures
        final(out)@ == old(out)@ + pairs_text(pairs),
{
    proof {
        reveal_strlit("{");
        reveal_strlit("(0, 0)");
        reveal_strlit("(0, 1)");
        reveal_strlit("(1, 0)");
        reveal_strlit("(1, 1)");
    }
    let mut list: String = "{".to_owned();
    push_pair(&mut list, true, pairs.zero_zero, "(0, 0)");
    push_pair(&mut list, !pairs.zero_zero, pairs.zero_one, "(0, 1)");
    push_pair(&mut list, !pairs.zero_zero && !pairs.zero_one, pairs.one_zero, "(1, 0)");
    push_pair(
        &mut list,
        !pairs.zero_zero && !pairs.zero_one && !pairs.one_zero,
        pairs.one_one,
        "(1, 1)",
    );
    list.append("}");
    out.append(list.as_str());
}

/// Why an input cannot be certified, over texts.
pub enum InputFailure {
    MissingInstance(nat),
    MissingPattern(MacroModel),
    Port(RoutingFailure),
    EmptyPath(Seq<char>),
    ShortPath(Seq<char>),
    NotAdjacent(Place, Place),
    MissingCell(Seq<char>, Place),
    NotTwoPort(Seq<char>, Place, RouteDirs),
    NotEntering(Seq<char>, Place),
    UnknownSpec(Seq<char>),
    NoPort(Seq<char>, RouteDir),
    NotIdentity(Seq<char>, Seq<char>, ValuePairs),
}

/// Why an input cannot be certified.
#[derive(Debug)]
pub enum InputError {
    /// The path of the input leads to no instance.
    MissingInstance { id: usize },
    /// The instance is realised by no pattern.
    MissingPattern { kind: MacroKind },
    /// The instance has no such port.
    Port { reason: RoutingError },
    /// The path has no cells.
    EmptyPath { variable: String },
    /// The path has one cell.
    ShortPath { variable: String },
    /// The first two cells are not neighbours.
    NotAdjacent { from: (i32, i32), to: (i32, i32) },
    /// The first cell is not a cell of the routing.
    MissingCell { variable: String, place: (i32, i32) },
    /// The first cell is shared with another path.
    NotTwoPort { variable: String, place: (i32, i32), dirs: RouteDirs },
    /// The first cell does not lead to the second.
    NotEntering { variable: String, place: (i32, i32) },
    /// The library has no pattern of that name.
    UnknownSpec { name: &'static str },
    /// A pattern has no wire in a direction.
    NoPort { name: &'static str, dir: RouteDir },
    /// The first cell does not hand its value on.
    NotIdentity { variable: String, name: &'static str, pairs: ValuePairs },
}

impl View for InputError {
    type V = InputFailure;

    open spec fn view(&self) -> InputFailure {
        match *self {
            InputError::MissingInstance { id } => InputFailure::MissingInstance(id as nat),
            InputError::MissingPattern { kind } => InputFailure::MissingPattern(kind@),
            InputError::Port { reason } => InputFailure::Port(reason@),
            InputError::EmptyPath { variable } => InputFailure::EmptyPath(variable@),
            InputError::ShortPath { variable } => InputFailure::ShortPath(variable@),
            InputError::NotAdjacent { from, to } => InputFailure::NotAdjacent(
                cellmap::place_of(from),
                cellmap::place_of(to),
            ),
            InputError::MissingCell { variable, place } => InputFailure::MissingCell(
                variable@,
                cellmap::place_of(place),
            ),
            InputError::NotTwoPort { variable, place, dirs } => InputFailure::NotTwoPort(
                variable@,
                cellmap::place_of(place),
                dirs,
            ),
            InputError::NotEntering { variable, place } => InputFailure::NotEntering(
                variable@,
                cellmap::place_of(place),
            ),
            InputError::UnknownSpec { name } => InputFailure::UnknownSpec(name@),
            InputError::NoPort { name, dir } => InputFailure::NoPort(name@, dir),
            InputError::NotIdentity { variable, name, pairs } => InputFailure::NotIdentity(variable@, name@, pairs),
        }
    }
}

/// The message of a failure.
pub open spec fn input_text(failure: InputFailure) -> Seq<char> {
    match failure {
        InputFailure::MissingInstance(id) => "Missing target instance InstanceId("@ + text::decimal(id) + ")"@,
        InputFailure::MissingPattern(kind) => "Missing published spec for "@ + compiler::kind_text(kind),
        InputFailure::Port(reason) => routing::routing_text(reason),
        InputFailure::EmptyPath(variable) => "External input '"@ + variable + "' has an empty route path"@,
        InputFailure::ShortPath(variable) => "External input '"@ + variable + "' route path is too short"@,
        InputFailure::NotAdjacent(from, to) => "Cells "@ + routing::place_text(from) + " and "@
            + routing::place_text(to) + " are not adjacent"@,
        InputFailure::MissingCell(variable, place) => "External input '"@ + variable + "' source cell "@
            + routing::place_text(place) + " is missing from the routing witness"@,
        InputFailure::NotTwoPort(variable, place, dirs) => "External input '"@ + variable + "' source cell "@
            + routing::place_text(place) + " should be a two-port routing piece, found "@ + routing::dirs_text(dirs),
        InputFailure::NotEntering(variable, place) => "External input '"@ + variable + "' source cell "@
            + routing::place_text(place) + " does not point into its routed path"@,
        InputFailure::UnknownSpec(name) => "Unknown published spec '"@ + name + "'"@,
        InputFailure::NoPort(name, dir) => "Spec '"@ + name + "' has no "@ + routing::dir_text(dir) + " port"@,
        InputFailure::NotIdentity(variable, name, pairs) => "External input '"@ + variable + "' enters through "@
            + name + " with projected relation "@ + pairs_text(pairs) + ", expected {(0, 0), (1, 1)}"@,
    }
}

impl InputError {
    /// The message of the error.
    pub fn to_string(&self) -> (message: String)
        ensures
            message@ == input_text(self@),
    {
        match self {
            InputError::MissingInstance { id } => {
                let mut out: String = "Missing target instance InstanceId(".to_owned();
                push_usize(&mut out, *id);
                out.append(")");
                out
            },
            InputError::MissingPattern { kind } => {
                let mut out: String = "Missing published spec for ".to_owned();
                out.append(kind.rendered().as_str());
                out
            },
            InputError::Port { reason } => reason.to_string(),
            InputError::EmptyPath { variable } => {
                let mut out: String = "External input '".to_owned();
                out.append(variable.as_str());
                out.append("' has an empty route path");
                out
            },
            InputError::ShortPath { variable } => {
                let mut out: String = "External input '".to_owned();
                out.append(variable.as_str());
                out.append("' route path is too short");
                out
            },
            InputError::NotAdjacent { from, to } => {
                let mut out: String = "Cells ".to_owned();
                push_place(&mut out, *from);
                out.append(" and ");
                push_place(&mut out, *to);
                out.append(" are not adjacent");
                out
            },
            InputError::MissingCell { variable, place } => {
                let mut out: String = "External input '".to_owned();
                out.append(variable.as_str());
                out.append("' source cell ");
                push_place(&mut out, *place);
                out.append(" is missing from the routing witness");
                out
            },
            InputError::NotTwoPort { variable, place, dirs } => {
                let mut out: String = "External input '".to_owned();
                out.append(variable.as_str());
                out.append("' source cell ");
                push_place(&mut out, *place);
                out.append(" should be a two-port routing piece, found ");
                push_dirs(&mut out, *dirs);
                out
            },
            InputError::NotEntering { variable, place } => {
                let mut out: String = "External input '".to_owned();
                out.append(variable.as_str());
                out.append("' source cell ");
                push_place(&mut out, *place);
                out.append(" does not point into its routed path");
                out
            },
            InputError::UnknownSpec { name } => {
                let mut out: String = "Unknown published spec '".to_owned();
                out.append(*name);
                out.append("'");
                out
            },
            InputError::NoPort { name, dir } => {
                let mut out: String = "Spec '".to_owned();
                out.append(*name);
                out.append("' has no ");
                out.append(dir.as_str());
                out.append(" port");
                out
            },
            InputError::NotIdentity { variable, name, pairs } => {
                let mut out: String = "External input '".to_owned();
                out.append(variable.as_str());
                out.append("' enters through ");
                out.append(*name);
                out.append(" with projected relation ");
                push_pairs(&mut out, *pairs);
                out.append(", expected {(0, 0), (1, 1)}");
                out
            },
        }
    }
}

/// An input of a routing, over texts.
#[verifier::ext_equal]
pub struct EntryModel {
    pub variable: Seq<char>,
    pub mode: InputEncodingMode,
    pub target: (nat, Seq<char>),
    pub target_spec: Seq<char>,
    pub target_dir: RouteDir,
    pub source: Place,
    pub source_spec: Seq<char>,
    pub boundary_dir: RouteDir,
    pub routed_dir: RouteDir,
    pub values: Seq<u8>,
}

/// An input of a routing: where it enters, and what it can carry.
#[derive(Debug, PartialEq, Eq)]
pub struct InputBoundaryEntry {
    pub variable: String,
    pub mode: InputEncodingMode,
    pub target: PortRef,
    pub target_spec_name: &'static str,
    pub target_dir: RouteDir,
    pub source_coord: (i32, i32),
    pub source_spec_name: &'static str,
    pub boundary_dir: RouteDir,
    pub routed_dir: RouteDir,
    pub supported_boundary_values: Vec<u8>,
}

impl Clone for InputBoundaryEntry {
    fn clone(&self) -> (copy: Self)
        ensures
            copy@ == self@,
    {
        Self {
            variable: self.variable.clone(),
            mode: self.mode,
            target: self.target,
            target_spec_name: self.target_spec_name,
            target_dir: self.target_dir,
            source_coord: self.source_coord,
            source_spec_name: self.source_spec_name,
            boundary_dir: self.boundary_dir,
            routed_dir: self.routed_dir,
            supported_boundary_values: self.supported_boundary_values.clone(),
        }
    }
}

impl View for InputBoundaryEntry {
    type V = EntryModel;

    open spec fn view(&self) -> EntryModel {
        EntryModel {
            variable: self.variable@,
            mode: self.mode,
            target: self.target@,
            target_spec: self.target_spec_name@,
            target_dir: self.target_dir,
            source: cellmap::place_of(self.source_coord),
            source_spec: self.source_spec_name@,
            boundary_dir: self.boundary_dir,
            routed_dir: self.routed_dir,
            values: self.supported_boundary_values@,
        }
    }
}

/// The family of an input.
pub open spec fn family_text(entry: EntryModel) -> Seq<char> {
    mode_text(entry.mode) + " boundary --"@ + routing::dir_text(entry.boundary_dir) + "--> "@ + entry.source_spec
        + " --"@ + routing::dir_text(entry.routed_dir) + "--> routed fabric"@
}

impl InputBoundaryEntry {
    /// The family of the input.
    pub fn family_label(&self) -> (label: String)
        ensures
            label@ == family_text(self@),
    {
        let mut out: String = self.mode.as_str().to_owned();
        out.append(" boundary --");
        out.append(self.boundary_dir.as_str());
        out.append("--> ");
        out.append(self.source_spec_name);
        out.append(" --");
        out.append(self.routed_dir.as_str());
        out.append("--> routed fabric");
        out
    }
}

/// How many inputs belong to a family.
#[derive(Debug, Clone, PartialEq, Eq)]
pub struct InputBoundaryFamily {
    pub label: String,
    pub count: usize,
}

/// The inputs of a routing.
#[derive(Debug, Clone, PartialEq, Eq)]
pub struct InputBoundaryCertificate {
    pub entries: Vec<InputBoundaryEntry>,
    pub families: Vec<InputBoundaryFamily>,
    pub distinct_source_coords: bool,
    pub all_sources_binary_identity: bool,
    pub variable_sources_independent: bool,
}

/// The kind of the last of the first `k` instances with a number.
pub open spec fn last_kind(instances: Seq<InstanceModel>, k: nat, id: nat) -> Option<MacroModel>
    decreases k,
{
    if k == 0 {
        None
    } else if instances[k - 1].id == id {
        Some(instances[k - 1].kind)
    } else {
        last_kind(instances, (k - 1) as nat, id)
    }
}

/// The last of the first `k` cells at a place.
pub open spec fn last_cell(cells: Seq<RoutedCell>, k: nat, place: Place) -> Option<RoutedCell>
    decreases k,
{
    if k == 0 {
        None
    } else if cellmap::place_of(cells[k - 1].coord) == place {
        Some(cells[k - 1])
    } else {
        last_cell(cells, (k - 1) as nat, place)
    }
}

/// The letter of a direction.
pub open spec fn dir_char(dir: RouteDir) -> char {
    match dir {
        RouteDir::N => 'N',
        RouteDir::E => 'E',
        RouteDir::S => 'S',
        RouteDir::W => 'W',
    }
}

/// Some item of a relation gives two wires the given values.
pub open spec fn some_item(items: Seq<Seq<u8>>, k: nat, a: int, b: int, x: u8, y: u8) -> bool {
    exists|i: int| #![trigger items[i]] 0 <= i < k && items[i][a] == x && items[i][b] == y
}

/// The pairs of values that the first `k` items allow on two wires.
pub open spec fn pairs_of(items: Seq<Seq<u8>>, k: nat, a: int, b: int) -> ValuePairs {
    ValuePairs {
        zero_zero: some_item(items, k, a, b, 0, 0),
        zero_one: some_item(items, k, a, b, 0, 1),
        one_zero: some_item(items, k, a, b, 1, 0),
        one_one: some_item(items, k, a, b, 1, 1),
    }
}

/// The pairs of values that a pattern allows on its wires in two directions.
pub open spec fn projected(name: Seq<char>, boundary: RouteDir, inward: RouteDir) -> Result<ValuePairs, InputFailure> {
    match library::spec_named(name) {
        None => Err(InputFailure::UnknownSpec(name)),
        Some(spec) => if !spec.wires.contains(dir_char(boundary)) {
            Err(InputFailure::NoPort(name, boundary))
        } else if !spec.wires.contains(dir_char(inward)) {
            Err(InputFailure::NoPort(name, inward))
        } else {
            Ok(
                pairs_of(
                    spec.items,
                    spec.items.len(),
                    spec.wires.index_of(dir_char(boundary)),
                    spec.wires.index_of(dir_char(inward)),
                ),
            )
        },
    }
}

/// The direction of a set other than the given one: the first in the order north, east,
/// south, west.
pub open spec fn other_dir(dirs: RouteDirs, dir: RouteDir) -> RouteDir {
    if dirs.n && dir != RouteDir::N {
        RouteDir::N
    } else if dirs.e && dir != RouteDir::E {
        RouteDir::E
    } else if dirs.s && dir != RouteDir::S {
        RouteDir::S
    } else {
        RouteDir::W
    }
}

/// The input whose path enters at a cell in a direction.
pub open spec fn entry_at(
    variable: Seq<char>,
    target: (nat, Seq<char>),
    target_spec: Seq<char>,
    target_dir: RouteDir,
    cell: RoutedCell,
    inward: RouteDir,
) -> Result<EntryModel, InputFailure> {
    let place = cellmap::place_of(cell.coord);
    if routing::dir_count(cell.dirs) != 2 {
        Err(InputFailure::NotTwoPort(variable, place, cell.dirs))
    } else if !routing::leads(cell.dirs, inward) {
        Err(InputFailure::NotEntering(variable, place))
    } else {
        let boundary = other_dir(cell.dirs, inward);
        match projected(cell.spec_name@, boundary, inward) {
            Err(failure) => Err(failure),
            Ok(pairs) => if pairs != identity_pairs() {
                Err(InputFailure::NotIdentity(variable, cell.spec_name@, pairs))
            } else {
                Ok(
                    EntryModel {
                        variable,
                        mode: mode_of(variable),
                        target,
                        target_spec,
                        target_dir,
                        source: place,
                        source_spec: cell.spec_name@,
                        boundary_dir: boundary,
                        routed_dir: inward,
                        values: seq![0u8, 1u8],
                    },
                )
            },
        }
    }
}

/// The input at the source of a path.
pub open spec fn entry_of(
    c: ConstructionModel,
    cells: Seq<RoutedCell>,
    variable: Seq<char>,
    path: NetPathWitness,
) -> Result<EntryModel, InputFailure> {
    let way = lanes::places(path.cells@);
    match last_kind(c.instances, c.instances.len(), path.to@.0) {
        None => Err(InputFailure::MissingInstance(path.to@.0)),
        Some(kind) => match compiler::published_name(kind) {
            None => Err(InputFailure::MissingPattern(kind)),
            Some(target_spec) => match routing::port_dir(kind, path.to@.1) {
                Err(failure) => Err(InputFailure::Port(failure)),
                Ok(target_dir) => if way.len() == 0 {
                    Err(InputFailure::EmptyPath(variable))
                } else if way.len() == 1 {
                    Err(InputFailure::ShortPath(variable))
                } else if !lanes::adjacent(way[0], way[1]) {
                    Err(InputFailure::NotAdjacent(way[0], way[1]))
                } else {
                    match last_cell(cells, cells.len(), way[0]) {
                        None => Err(InputFailure::MissingCell(variable, way[0])),
                        Some(cell) => entry_at(
                            variable,
                            path.to@,
                            target_spec,
                            target_dir,
                            cell,
                            lanes::heading(way[0], way[1]),
                        ),
                    }
                },
            },
        },
    }
}

/// The inputs among the first `k` paths.
pub open spec fn entries_of(
    c: ConstructionModel,
    cells: Seq<RoutedCell>,
    paths: Seq<NetPathWitness>,
    k: nat,
) -> Result<Seq<EntryModel>, InputFailure>
    decreases k,
{
    if k == 0 {
        Ok(Seq::empty())
    } else {
        match entries_of(c, cells, paths, (k - 1) as nat) {
            Err(failure) => Err(failure),
            Ok(earlier) => match paths[k - 1].from@ {
                EndpointModel::Port(_, _) => Ok(earlier),
                EndpointModel::External(variable) => match entry_of(c, cells, variable, paths[k - 1]) {
                    Err(failure) => Err(failure),
                    Ok(entry) => Ok(earlier.push(entry)),
                },
            },
        }
    }
}

/// Entries, over texts.
pub open spec fn entry_models(entries: Seq<InputBoundaryEntry>) -> Seq<EntryModel> {
    Seq::new(entries.len(), |i: int| entries[i]@)
}

/// No two inputs enter at the same place.
pub open spec fn distinct_sources(entries: Seq<EntryModel>) -> bool {
    forall|i: int, j: int| #![trigger entries[i], entries[j]]
        0 <= i < j < entries.len() ==> entries[i].source != entries[j].source
}

/// No two variables enter at the same place.
pub open spec fn distinct_variables(entries: Seq<EntryModel>) -> bool {
    forall|i: int, j: int| #![trigger entries[i], entries[j]]
        0 <= i < j < entries.len() && entries[i].mode == InputEncodingMode::Variable && entries[j].mode
            == InputEncodingMode::Variable ==> entries[i].source != entries[j].source
}

/// The families of inputs.
pub open spec fn family_texts(entries: Seq<EntryModel>) -> Seq<Seq<char>> {
    Seq::new(entries.len(), |i: int| family_text(entries[i]))
}

/// The families that occur, in the order of their names, with how often they occur.
pub open spec fn are_input_families(families: Seq<InputBoundaryFamily>, labels: Seq<Seq<char>>) -> bool {
    &&& forall|i: int, j: int| #![trigger families[i], families[j]]
        0 <= i < j < families.len() ==> text::text_less(families[i].label@, families[j].label@)
    &&& forall|i: int|
        0 <= i < families.len() ==> (#[trigger] families[i]).count == tally::occurrences(labels, families[i].label@)
            && families[i].count > 0
    &&& forall|label: Seq<char>| #[trigger]
        labels.contains(label) ==> exists|i: int| 0 <= i < families.len() && (#[trigger] families[i]).label@ == label
}

/// The certificate of the inputs.
pub open spec fn is_certificate(certificate: InputBoundaryCertificate, entries: Seq<EntryModel>) -> bool {
    &&& entry_models(certificate.entries@) == entries
    &&& are_input_families(certificate.families@, family_texts(entries))
    &&& certificate.distinct_source_coords == distinct_sources(entries)
    &&& certificate.variable_sources_independent == distinct_variables(entries)
    &&& certificate.all_sources_binary_identity == forall|i: int|
        0 <= i < entries.len() ==> (#[trigger] entries[i]).values == seq![0u8, 1u8]
}

/// How many of the first `k` inputs carry variables.
pub open spec fn variable_count(entries: Seq<InputBoundaryEntry>, k: nat) -> nat
    decreases k,
{
    if k == 0 {
        0
    } else {
        variable_count(entries, (k - 1) as nat) + (if entries[k - 1].mode == InputEncodingMode::Variable {
            1nat
        } else {
            0
        })
    }
}

impl InputBoundaryCertificate {
    /// Every input enters at a place of its own, and hands its value on.
    pub open spec fn complete(&self) -> bool {
        self.distinct_source_coords && self.all_sources_binary_identity && self.variable_sources_independent
    }

    /// Whether every input enters at a place of its own, and hands its value on.
    pub fn is_complete(&self) -> (complete: bool)
        ensures
            complete == self.complete(),
    {
        self.distinct_source_coords && self.all_sources_binary_identity && self.variable_sources_independent
    }

    /// The summary.
    pub open spec fn summary(&self) -> Seq<char> {
        let variables = variable_count(self.entries@, self.entries@.len());
        "input_boundary_encoding_complete="@ + text::bool_text(self.complete()) + " input_entries="@ + text::decimal(
            self.entries@.len(),
        ) + " input_families="@ + text::decimal(self.families@.len()) + " variable_inputs="@ + text::decimal(
            variables,
        ) + " constant_inputs="@ + text::decimal((self.entries@.len() - variables) as nat)
    }

    /// How many inputs there are.
    pub fn render_summary(&self) -> (summary: String)
        ensures
            summary@ == self.summary(),
    {
        let mut variables: usize = 0;
        let mut k: usize = 0;
        while k < self.entries.len()
            invariant
                k <= self.entries@.len(),
                variables <= k,
                variables == variable_count(self.entries@, k as nat),
            decreases self.entries.len() - k,
        {
            if self.entries[k].mode == InputEncodingMode::Variable {
                variables += 1;
            }
            k += 1;
        }
        let mut out: String = "input_boundary_encoding_complete=".to_owned();
        push_bool(&mut out, self.is_complete());
        out.append(" input_entries=");
        push_usize(&mut out, self.entries.len());
        out.append(" input_families=");
        push_usize(&mut out, self.families.len());
        out.append(" variable_inputs=");
        push_usize(&mut out, variables);
        out.append(" constant_inputs=");
        push_usize(&mut out, self.entries.len() - variables);
        out
    }

    /// The lines of the summary of families.
    pub open spec fn family_lines(&self) -> Seq<Seq<char>> {
        seq!["input boundary families: "@ + text::decimal(self.families@.len())] + Seq::new(
            self.families@.len(),
            |i: int| "  "@ + self.families@[i].label@ + " x"@ + text::decimal(self.families@[i].count as nat),
        )
    }

    /// The families of inputs, with how often they occur.
    pub fn render_family_summary(&self) -> (summary: String)
        ensures
            summary@ == text::joined(self.family_lines(), "\n"@),
    {
        let ghost lines = self.family_lines();
        let mut out: String = "input boundary families: ".to_owned();
        push_usize(&mut out, self.families.len());
        proof {
            text::lemma_joined_step(lines, "\n"@, 0);
            assert(out@ =~= text::joined(lines.take(1), "\n"@));
        }
        let mut k: usize = 0;
        while k < self.families.len()
            invariant
                k <= self.families@.len(),
                lines == self.family_lines(),
                out@ == text::joined(lines.take(k + 1), "\n"@),
            decreases self.families.len() - k,
        {
            proof {
                text::lemma_joined_step(lines, "\n"@, k + 1);
            }
            out.append("\n");
            let ghost start = out@;
            out.append("  ");
            out.append(self.families[k].label.as_str());
            out.append(" x");
            push_usize(&mut out, self.families[k].count);
            assert(out@ =~= start + lines[k + 1]);
            k += 1;
        }
        assert(lines.take(k + 1) =~= lines);
        out
    }
}

fn instance_kind(construction: &CompiledConstruction, id: usize) -> (kind: Option<&MacroKind>)
    ensures
        match kind {
            Some(found) => last_kind(construction@.instances, construction@.instances.len(), id as nat) == Some(found@),
            None => last_kind(construction@.instances, construction@.instances.len(), id as nat) is None,
        },
{
    let ghost c = construction@;
    let mut kind: Option<&MacroKind> = None;
    let mut k: usize = 0;
    while k < construction.instances.len()
        invariant
            k <= construction.instances@.len(),
            c == construction@,
            match kind {
                Some(found) => last_kind(c.instances, k as nat, id as nat) == Some(found@),
                None => last_kind(c.instances, k as nat, id as nat) is None,
            },
        decreases construction.instances.len() - k,
    {
        let instance: &MacroInstance = &construction.instances[k];
        assert(c.instances[k as int] == instance@);
        if instance.id.0 == id {
            kind = Some(&instance.kind);
        }
        k += 1;
    }
    kind
}

fn cell_at(cells: &Vec<RoutedCell>, place: (i32, i32)) -> (cell: Option<RoutedCell>)
    ensures
        cell == last_cell(cells@, cells@.len(), cellmap::place_of(place)),
{
    let mut cell: Option<RoutedCell> = None;
    let mut k: usize = 0;
    while k < cells.len()
        invariant
            k <= cells@.len(),
            cell == last_cell(cells@, k as nat, cellmap::place_of(place)),
        decreases cells.len() - k,
    {
        if cells[k].coord.0 == place.0 && cells[k].coord.1 == place.1 {
            cell = Some(cells[k]);
        }
        k += 1;
    }
    cell
}

fn route_dir_char(dir: RouteDir) -> (c: char)
    ensures
        c == dir_char(dir),
{
    match dir {
        RouteDir::N => 'N',
        RouteDir::E => 'E',
        RouteDir::S => 'S',
        RouteDir::W => 'W',
    }
}

fn wire_position(wires: &Vec<char>, wire: char) -> (found: Option<usize>)
    requires
        forall|i: int, j: int| #![trigger wires@[i], wires@[j]]
            0 <= i < j < wires@.len() ==> wires@[i] != wires@[j],
    ensures
        match found {
            Some(i) => i < wires@.len() && wires@.contains(wire) && i == wires@.index_of(wire),
            None => !wires@.contains(wire),
        },
{
    let mut i: usize = 0;
    while i < wires.len()
        invariant
            i <= wires@.len(),
            forall|a: int, b: int| #![trigger wires@[a], wires@[b]]
                0 <= a < b < wires@.len() ==> wires@[a] != wires@[b],
            forall|j: int| 0 <= j < i ==> #[trigger] wires@[j] != wire,
        decreases wires.len() - i,
    {
        if wires[i] == wire {
            return Some(i);
        }
        i += 1;
    }
    None
}

/// The pairs of values that a pattern allows on its wires in two directions.
fn projected_relation(spec_name: &'static str, boundary: RouteDir, inward: RouteDir) -> (result: Result<
    ValuePairs,
    InputError,
>)
    ensures
        match projected(spec_name@, boundary, inward) {
            Ok(pairs) => result == Ok::<ValuePairs, InputError>(pairs),
            Err(failure) => result matches Err(error) && error@ == failure,
        },
{
    let spec: PublishedSpec = match published_spec_named(spec_name) {
        Some(spec) => spec,
        None => {
            return Err(InputError::UnknownSpec { name: spec_name });
        },
    };
    proof {
        library::lemma_spec_named(spec_name@);
    }
    let wires: Vec<char> = chars_of(spec.relation_wires);
    let a: usize = match wire_position(&wires, route_dir_char(boundary)) {
        Some(a) => a,
        None => {
            return Err(InputError::NoPort { name: spec_name, dir: boundary });
        },
    };
    let b: usize = match wire_position(&wires, route_dir_char(inward)) {
        Some(b) => b,
        None => {
            return Err(InputError::NoPort { name: spec_name, dir: inward });
        },
    };
    let ghost items = spec@.items;
    let mut pairs: ValuePairs = ValuePairs { zero_zero: false, zero_one: false, one_zero: false, one_one: false };
    let mut k: usize = 0;
    while k < spec.relation_items.len()
        invariant
            k <= spec.relation_items@.len(),
            items == spec@.items,
            library::regular(spec@),
            a < spec@.wires.len(),
            b < spec@.wires.len(),
            pairs == pairs_of(items, k as nat, a as int, b as int),
        decreases spec.relation_items.len() - k,
    {
        let row: &Vec<u8> = &spec.relation_items[k];
        assert(items[k as int] == row@);
        assert(items[k as int].len() == spec@.wires.len());
        assert(items[k as int][a as int] <= 1 && items[k as int][b as int] <= 1);
        proof {
            lemma_pairs_step(items, k as nat, a as int, b as int);
        }
        if row[a] == 0 && row[b] == 0 {
            pairs.zero_zero = true;
        } else if row[a] == 0 {
            pairs.zero_one = true;
        } else if row[b] == 0 {
            pairs.one_zero = true;
        } else {
            pairs.one_one = true;
        }
        k += 1;
    }
    Ok(pairs)
}

proof fn lemma_some_item_step(items: Seq<Seq<u8>>, k: nat, a: int, b: int, x: u8, y: u8)
    ensures
        some_item(items, k + 1, a, b, x, y) == (some_item(items, k, a, b, x, y) || (items[k as int][a] == x && items[k as int][b]
            == y)),
{
    if some_item(items, k + 1, a, b, x, y) {
        let i = choose|i: int| #![trigger items[i]] 0 <= i < k + 1 && items[i][a] == x && items[i][b] == y;
        if i < k {
            assert(some_item(items, k, a, b, x, y));
        }
    }
    if some_item(items, k, a, b, x, y) {
        let i = choose|i: int| #![trigger items[i]] 0 <= i < k && items[i][a] == x && items[i][b] == y;
        assert(items[i][a] == x);
    }
    if items[k as int][a] == x && items[k as int][b] == y {
        assert(some_item(items, k + 1, a, b, x, y));
    }
}

proof fn lemma_pairs_step(items: Seq<Seq<u8>>, k: nat, a: int, b: int)
    ensures
        pairs_of(items, k + 1, a, b) == (ValuePairs {
            zero_zero: pairs_of(items, k, a, b).zero_zero || (items[k as int][a] == 0 && items[k as int][b] == 0),
            zero_one: pairs_of(items, k, a, b).zero_one || (items[k as int][a] == 0 && items[k as int][b] == 1),
            one_zero: pairs_of(items, k, a, b).one_zero || (items[k as int][a] == 1 && items[k as int][b] == 0),
            one_one: pairs_of(items, k, a, b).one_one || (items[k as int][a] == 1 && items[k as int][b] == 1),
        }),
{
    lemma_some_item_step(items, k, a, b, 0, 0);
    lemma_some_item_step(items, k, a, b, 0, 1);
    lemma_some_item_step(items, k, a, b, 1, 0);
    lemma_some_item_step(items, k, a, b, 1, 1);
}

fn boundary_dir(dirs: RouteDirs, dir: RouteDir) -> (other: RouteDir)
    ensures
        other == other_dir(dirs, dir),
{
    if dirs.n && dir != RouteDir::N {
        RouteDir::N
    } else if dirs.e && dir != RouteDir::E {
        RouteDir::E
    } else if dirs.s && dir != RouteDir::S {
        RouteDir::S
    } else {
        RouteDir::W
    }
}

/// The input at the source of a path.
fn certify_entry(
    construction: &CompiledConstruction,
    cells: &Vec<RoutedCell>,
    variable: &String,
    path: &NetPathWitness,
) -> (result: Result<InputBoundaryEntry, InputError>)
    ensures
        match entry_of(construction@, cells@, variable@, *path) {
            Ok(entry) => result matches Ok(found) && found@ == entry,
            Err(failure) => result matches Err(error) && error@ == failure,
        },
{
    let ghost way = lanes::places(path.cells@);
    let kind: &MacroKind = match instance_kind(construction, path.to.instance.0) {
        Some(kind) => kind,
        None => {
            return Err(InputError::MissingInstance { id: path.to.instance.0 });
        },
    };
    let target_spec_name: &'static str = match kind.published_spec_name() {
        Some(name) => name,
        None => {
            return Err(InputError::MissingPattern { kind: kind.clone() });
        },
    };
    let target_dir: RouteDir = match macro_port_dir(kind, path.to.port) {
        Ok(dir) => dir,
        Err(reason) => {
            return Err(InputError::Port { reason });
        },
    };
    if path.cells.len() == 0 {
        return Err(InputError::EmptyPath { variable: variable.clone() });
    }
    if path.cells.len() == 1 {
        return Err(InputError::ShortPath { variable: variable.clone() });
    }
    let source_coord: (i32, i32) = path.cells[0];
    let next_coord: (i32, i32) = path.cells[1];
    assert(way[0] == cellmap::place_of(source_coord) && way[1] == cellmap::place_of(next_coord));
    let routed_dir: RouteDir = match direction_between(source_coord, next_coord) {
        Some(dir) => dir,
        None => {
            return Err(InputError::NotAdjacent { from: source_coord, to: next_coord });
        },
    };
    let cell: RoutedCell = match cell_at(cells, source_coord) {
        Some(cell) => cell,
        None => {
            return Err(InputError::MissingCell { variable: variable.clone(), place: source_coord });
        },
    };
    proof {
        lemma_last_cell(cells@, cells@.len(), way[0]);
    }
    if cell.dirs.len() != 2 {
        return Err(
            InputError::NotTwoPort { variable: variable.clone(), place: source_coord, dirs: cell.dirs },
        );
    }
    if !cell.dirs.contains(routed_dir) {
        return Err(InputError::NotEntering { variable: variable.clone(), place: source_coord });
    }
    let boundary: RouteDir = boundary_dir(cell.dirs, routed_dir);
    let pairs: ValuePairs = match projected_relation(cell.spec_name, boundary, routed_dir) {
        Ok(pairs) => pairs,
        Err(error) => {
            return Err(error);
        },
    };
    if !(pairs.zero_zero && !pairs.zero_one && !pairs.one_zero && pairs.one_one) {
        return Err(
            InputError::NotIdentity { variable: variable.clone(), name: cell.spec_name, pairs },
        );
    }
    let mut values: Vec<u8> = Vec::new();
    values.push(0);
    values.push(1);
    assert(values@ =~= seq![0u8, 1u8]);
    Ok(
        InputBoundaryEntry {
            variable: variable.clone(),
            mode: input_mode_for_variable(variable.as_str()),
            target: path.to,
            target_spec_name,
            target_dir,
            source_coord,
            source_spec_name: cell.spec_name,
            boundary_dir: boundary,
            routed_dir,
            supported_boundary_values: values,
        },
    )
}

proof fn lemma_last_cell(cells: Seq<RoutedCell>, k: nat, place: Place)
    requires
        k <= cells.len(),
    ensures
        last_cell(cells, k, place) matches Some(cell) ==> cellmap::place_of(cell.coord) == place,
    decreases k,
{
    if k > 0 && cellmap::place_of(cells[k - 1].coord) != place {
        lemma_last_cell(cells, (k - 1) as nat, place);
    }
}

proof fn lemma_entries_fail(
    c: ConstructionModel,
    cells: Seq<RoutedCell>,
    paths: Seq<NetPathWitness>,
    j: nat,
    k: nat,
)
    requires
        j <= k,
        entries_of(c, cells, paths, j) is Err,
    ensures
        entries_of(c, cells, paths, k) == entries_of(c, cells, paths, j),
    decreases k,
{
    if j < k {
        lemma_entries_fail(c, cells, paths, j, (k - 1) as nat);
    }
}

/// Whether no two inputs, or no two variables, enter at the same place.
fn sources_differ(entries: &Vec<InputBoundaryEntry>, variables_only: bool) -> (result: bool)
    ensures
        result == (if variables_only {
            distinct_variables(entry_models(entries@))
        } else {
            distinct_sources(entry_models(entries@))
        }),
{
    let ghost models = entry_models(entries@);
    let mut j: usize = 0;
    while j < entries.len()
        invariant
            j <= entries@.len(),
            models == entry_models(entries@),
            forall|a: int, b: int| #![trigger models[a], models[b]]
                0 <= a < b < j && (!variables_only || (models[a].mode == InputEncodingMode::Variable && models[b].mode
                    == InputEncodingMode::Variable)) ==> models[a].source != models[b].source,
        decreases entries.len() - j,
    {
        let mut i: usize = 0;
        while i < j
            invariant
                i <= j < entries@.len(),
                models == entry_models(entries@),
                forall|a: int| #![trigger models[a]]
                    0 <= a < i && (!variables_only || (models[a].mode == InputEncodingMode::Variable
                        && models[j as int].mode == InputEncodingMode::Variable)) ==> models[a].source
                        != models[j as int].source,
            decreases j - i,
        {
            assert(models[i as int] == entries@[i as int]@ && models[j as int] == entries@[j as int]@);
            let counts: bool = !variables_only || (entries[i].mode == InputEncodingMode::Variable && entries[j].mode
                == InputEncodingMode::Variable);
            if counts && entries[i].source_coord.0 == entries[j].source_coord.0 && entries[i].source_coord.1
                == entries[j].source_coord.1 {
                assert(models[i as int].source == models[j as int].source);
                return false;
            }
            i += 1;
        }
        j += 1;
    }
    true
}

/// Whether every input can carry both values.
fn all_binary(entries: &Vec<InputBoundaryEntry>) -> (result: bool)
    ensures
        result == forall|i: int|
            0 <= i < entries@.len() ==> (#[trigger] entry_models(entries@)[i]).values == seq![0u8, 1u8],
{
    let ghost models = entry_models(entries@);
    let mut k: usize = 0;
    while k < entries.len()
        invariant
            k <= entries@.len(),
            models == entry_models(entries@),
            forall|i: int| 0 <= i < k ==> (#[trigger] models[i]).values == seq![0u8, 1u8],
        decreases entries.len() - k,
    {
        let values: &Vec<u8> = &entries[k].supported_boundary_values;
        assert(models[k as int].values == values@);
        if !(values.len() == 2 && values[0] == 0 && values[1] == 1) {
            proof {
                let both = seq![0u8, 1u8];
                assert(both.len() == 2 && both[0] == 0 && both[1] == 1);
                assert(models[k as int].values != both);
            }
            return false;
        }
        assert(values@ =~= seq![0u8, 1u8]);
        k += 1;
    }
    true
}

/// The families of inputs, with how often they occur.
fn count_families(entries: &Vec<InputBoundaryEntry>) -> (families: Vec<InputBoundaryFamily>)
    ensures
        are_input_families(families@, family_texts(entry_models(entries@))),
{
    let ghost labels = family_texts(entry_models(entries@));
    let mut counts: StrMap<usize> = StrMap::new();
    let mut k: usize = 0;
    assert(routing::is_usage(counts@, labels.take(0)));
    while k < entries.len()
        invariant
            k <= entries@.len(),
            labels == family_texts(entry_models(entries@)),
            counts.wf(),
            routing::is_usage(counts@, labels.take(k as int)),
        decreases entries.len() - k,
    {
        let label: String = entries[k].family_label();
        let ghost name = label@;
        assert(labels[k as int] == name);
        let ghost shown = labels.take(k as int);
        let ghost before = counts@;
        proof {
            tally::lemma_occurs(shown, name);
            assert(labels.take(k + 1) =~= shown.push(name));
        }
        let count: usize = match counts.get(label.as_str()) {
            Some(count) => *count,
            None => 0,
        };
        counts.insert(label, count + 1);
        proof {
            let more = labels.take(k + 1);
            assert forall|n: Seq<char>| #[trigger] counts@.contains_key(n) == more.contains(n) by {
                crate::seqs::lemma_take_contains(labels, k as int, n);
                assert(before.contains_key(n) == shown.contains(n));
            }
            assert forall|n: Seq<char>| #[trigger] counts@.contains_key(n) implies counts@[n] == tally::occurrences(
                more,
                n,
            ) by {
                tally::lemma_occurrences_push(shown, name, n);
                if n != name {
                    assert(before.contains_key(n));
                }
            }
        }
        k += 1;
    }
    assert(labels.take(k as int) =~= labels);
    proof {
        counts.lemma_entries();
    }
    let total: usize = counts.len();
    let mut families: Vec<InputBoundaryFamily> = Vec::new();
    let mut m: usize = 0;
    while m < total
        invariant
            m <= total,
            total == counts.key_seq().len(),
            counts.value_seq().len() == total,
            families@.len() == m,
            forall|i: int|
                0 <= i < m ==> (#[trigger] families@[i]).label@ == counts.key_seq()[i] && families@[i].count
                    == counts.value_seq()[i],
        decreases total - m,
    {
        families.push(InputBoundaryFamily { label: counts.key_at(m).clone(), count: *counts.value_at(m) });
        m += 1;
    }
    proof {
        let keys = counts.key_seq();
        assert forall|i: int, j: int| #![trigger families@[i], families@[j]] 0 <= i < j < families@.len() implies text::text_less(
            families@[i].label@,
            families@[j].label@,
        ) by {
            assert(text::text_less(keys[i], keys[j]));
        }
        assert forall|i: int| 0 <= i < families@.len() implies (#[trigger] families@[i]).count == tally::occurrences(
            labels,
            families@[i].label@,
        ) && families@[i].count > 0 by {
            assert(counts@.contains_key(keys[i]));
            tally::lemma_occurs(labels, keys[i]);
        }
        assert forall|label: Seq<char>| #[trigger] labels.contains(label) implies exists|i: int|
            0 <= i < families@.len() && (#[trigger] families@[i]).label@ == label by {
            assert(counts@.contains_key(label));
            let i = choose|i: int| 0 <= i < keys.len() && keys[i] == label;
            assert(families@[i].label@ == label);
        }
    }
    families
}

/// Certifies that every outside input enters the routing through a wire of its own that
/// hands its value on.
pub fn certify_input_boundary_encoding(construction: &CompiledConstruction, witness: &RoutingWitness) -> (result:
    Result<InputBoundaryCertificate, InputError>)
    ensures
        match entries_of(
            construction@,
            witness.route_cells@,
            witness.net_paths@,
            witness.net_paths@.len(),
        ) {
            Ok(entries) => result matches Ok(certificate) && is_certificate(certificate, entries),
            Err(failure) => result matches Err(error) && error@ == failure,
        },
{
    let ghost c = construction@;
    let ghost cells = witness.route_cells@;
    let ghost paths = witness.net_paths@;
    let mut entries: Vec<InputBoundaryEntry> = Vec::new();
    let mut k: usize = 0;
    assert(entry_models(entries@) =~= Seq::<EntryModel>::empty());
    while k < witness.net_paths.len()
        invariant
            k <= witness.net_paths@.len(),
            c == construction@,
            cells == witness.route_cells@,
            paths == witness.net_paths@,
            entries_of(c, cells, paths, k as nat) == Ok::<Seq<EntryModel>, InputFailure>(entry_models(entries@)),
        decreases witness.net_paths.len() - k,
    {
        let path: &NetPathWitness = &witness.net_paths[k];
        match &path.from {
            Endpoint::InstancePort(_) => {},
            Endpoint::ExternalInput { variable } => {
                match certify_entry(construction, &witness.route_cells, variable, path) {
                    Ok(entry) => {
                        let ghost before = entries@;
                        entries.push(entry);
                        assert(entry_models(entries@) =~= entry_models(before).push(entry@));
                    },
                    Err(error) => {
                        proof {
                            lemma_entries_fail(c, cells, paths, (k + 1) as nat, paths.len());
                        }
                        return Err(error);
                    },
                }
            },
        }
        k += 1;
    }
    let families: Vec<InputBoundaryFamily> = count_families(&entries);
    let distinct_source_coords: bool = sources_differ(&entries, false);
    let variable_sources_independent: bool = sources_differ(&entries, true);
    let all_sources_binary_identity: bool = all_binary(&entries);
    Ok(
        InputBoundaryCertificate {
            entries,
            families,
            distinct_source_coords,
            all_sources_binary_identity,
            variable_sources_independent,
        },
    )
}

/// The entries of the first `k` paths start where outside inputs start: at places left of
/// all instances, one for each net.
proof fn lemma_entry_sources(
    c: ConstructionModel,
    cells: Seq<RoutedCell>,
    paths: Seq<NetPathWitness>,
    route: routing::RouteCells,
    k: nat,
)
    requires
        routing::are_path_witnesses(c, route, paths),
        k <= paths.len(),
    ensures
        entries_of(c, cells, paths, k) matches Ok(entries) ==> forall|i: int|
            0 <= i < entries.len() ==> enters_before(#[trigger] entries[i], k),
        entries_of(c, cells, paths, k) matches Ok(entries) ==> distinct_sources(entries),
    decreases k,
{
    if k > 0 {
        let prev = (k - 1) as nat;
        lemma_entry_sources(c, cells, paths, route, prev);
        match entries_of(c, cells, paths, k) {
            Err(_) => {},
            Ok(entries) => {
                let earlier = entries_of(c, cells, paths, prev)->Ok_0;
                assert(routing::is_path_witness(c, route, prev as int, paths[prev as int]));
                match paths[prev as int].from@ {
                    EndpointModel::Port(_, _) => {
                        assert forall|i: int| 0 <= i < entries.len() implies enters_before(#[trigger] entries[i], k) by {
                            assert(enters_before(earlier[i], prev));
                            let net = choose|net: nat| net < prev && #[trigger] enters_at(earlier[i], net);
                            assert(enters_at(entries[i], net));
                        }
                    },
                    EndpointModel::External(variable) => {
                        let way = lanes::places(paths[prev as int].cells@);
                        lanes::lemma_path(
                            c,
                            prev,
                            lanes::source_of(c, prev)->Ok_0,
                            lanes::stub_of(c, c.nets[prev as int].to)->Ok_0,
                        );
                        lemma_last_cell(cells, cells.len(), way[0]);
                        assert(enters_at(entries.last(), prev));
                        assert forall|i: int| 0 <= i < entries.len() implies enters_before(#[trigger] entries[i], k) by {
                            if i < earlier.len() {
                                assert(entries[i] == earlier[i]);
                                assert(enters_before(earlier[i], prev));
                                let net = choose|net: nat| net < prev && #[trigger] enters_at(earlier[i], net);
                                assert(enters_at(entries[i], net));
                            }
                        }
                        assert forall|i: int, j: int| #![trigger entries[i], entries[j]]
                            0 <= i < j < entries.len() implies entries[i].source != entries[j].source by {
                            assert(entries[i] == earlier[i]);
                            if j < earlier.len() {
                                assert(entries[j] == earlier[j]);
                            } else {
                                assert(enters_before(earlier[i], prev));
                                let net = choose|net: nat| net < prev && #[trigger] enters_at(earlier[i], net);
                                assert(enters_at(entries[i], net));
                            }
                        }
                    },
                }
            },
        }
    }
}

/// The entry stands in the column of one of the first `k` nets.
pub open spec fn enters_before(entry: EntryModel, k: nat) -> bool {
    exists|net: nat| net < k && #[trigger] enters_at(entry, net)
}

/// The entry stands in the column of a net.
pub open spec fn enters_at(entry: EntryModel, net: nat) -> bool {
    entry.source.0 == -9 - net * 6
}

/// The outside inputs of a routing enter at different places, and their certificate is
/// complete.
pub proof fn law_input_certificate_complete(
    c: ConstructionModel,
    files: &PatternFiles,
    witness: RoutingWitness,
    entries: Seq<EntryModel>,
    certificate: InputBoundaryCertificate,
)
    requires
        routing::is_routing_result(c, files, Ok(witness)),
        entries_of(c, witness.route_cells@, witness.net_paths@, witness.net_paths@.len()) == Ok::<
            Seq<EntryModel>,
            InputFailure,
        >(entries),
        is_certificate(certificate, entries),
    ensures
        distinct_sources(entries),
        certificate.complete(),
{
    let route = routing::routed(c, c.nets.len())->Ok_0;
    lemma_entry_sources(c, witness.route_cells@, witness.net_paths@, route, witness.net_paths@.len());
    lemma_entry_values(c, witness.route_cells@, witness.net_paths@, witness.net_paths@.len());
}

proof fn lemma_entry_values(c: ConstructionModel, cells: Seq<RoutedCell>, paths: Seq<NetPathWitness>, k: nat)
    ensures
        entries_of(c, cells, paths, k) matches Ok(entries) ==> forall|i: int|
            0 <= i < entries.len() ==> (#[trigger] entries[i]).values == seq![0u8, 1u8],
    decreases k,
{
    if k > 0 {
        lemma_entry_values(c, cells, paths, (k - 1) as nat);
    }
}

} // verus!
