//! Routing: explicit rectilinear paths for the nets of a construction.
//!
//! Every net gets a path of unit cells from its source to its target, through lanes that
//! belong to the net alone. Where two paths cross at right angles the cell becomes a
//! crossing; where they would meet otherwise the routing fails.

use crate::cellmap::{Place, PlaceMap};
use crate::compiler::{
    CompiledConstruction, ConstructionModel, Endpoint, EndpointModel, InstanceId, InstanceModel,
    MacroInstance, MacroKind, MacroModel, Net, NetModel, PortRef,
};
use crate::lanes::{direction_between, Lanes, Stub};
use crate::lanes;
use crate::library::{published_connector_specs, published_spec_named, Alignment, PublishedSpec};
use crate::published::{PatternFiles, PublishedPattern};
use crate::strmap::StrMap;
use crate::tally::{add_names, Names, Tally};
use crate::text::{push_i64, push_usize, same_text};
use crate::cellmap;
use crate::compiler;
use crate::library;
use crate::published;
use crate::strmap;
use crate::tally;
use crate::text;
use vstd::prelude::*;

verus! {

/// A direction on the board.
#[derive(Debug, Clone, Copy, PartialEq, Eq, PartialOrd, Ord, Hash, Structural)]
pub enum RouteDir {
    N,
    E,
    S,
    W,
}

/// The name of a direction.
pub open spec fn dir_text(dir: RouteDir) -> Seq<char> {
    match dir {
        RouteDir::N => "N"@,
        RouteDir::E => "E"@,
        RouteDir::S => "S"@,
        RouteDir::W => "W"@,
    }
}

/// The direction that leads back.
pub open spec fn back(dir: RouteDir) -> RouteDir {
    match dir {
        RouteDir::N => RouteDir::S,
        RouteDir::E => RouteDir::W,
        RouteDir::S => RouteDir::N,
        RouteDir::W => RouteDir::E,
    }
}

impl RouteDir {
    /// The name of the direction.
    pub fn as_str(self) -> (name: &'static str)
        ensures
            name@ == dir_text(self),
    {
        match self {
            RouteDir::N => "N",
            RouteDir::E => "E",
            RouteDir::S => "S",
            RouteDir::W => "W",
        }
    }

    /// The direction that leads back.
    pub fn opposite(self) -> (dir: Self)
        ensures
            dir == back(self),
    {
        match self {
            RouteDir::N => RouteDir::S,
            RouteDir::E => RouteDir::W,
            RouteDir::S => RouteDir::N,
            RouteDir::W => RouteDir::E,
        }
    }
}

/// A set of directions.
#[derive(Debug, Clone, Copy, PartialEq, Eq, Structural)]
pub struct RouteDirs {
    pub n: bool,
    pub e: bool,
    pub s: bool,
    pub w: bool,
}

/// The direction is in the set.
pub open spec fn leads(dirs: RouteDirs, dir: RouteDir) -> bool {
    match dir {
        RouteDir::N => dirs.n,
        RouteDir::E => dirs.e,
        RouteDir::S => dirs.s,
        RouteDir::W => dirs.w,
    }
}

/// The set of two directions.
pub open spec fn both(a: RouteDir, b: RouteDir) -> RouteDirs {
    RouteDirs {
        n: a == RouteDir::N || b == RouteDir::N,
        e: a == RouteDir::E || b == RouteDir::E,
        s: a == RouteDir::S || b == RouteDir::S,
        w: a == RouteDir::W || b == RouteDir::W,
    }
}

/// The set of all directions.
pub open spec fn every_way() -> RouteDirs {
    RouteDirs { n: true, e: true, s: true, w: true }
}

/// How many directions are in the set.
pub open spec fn dir_count(dirs: RouteDirs) -> nat {
    (if dirs.n { 1nat } else { 0 }) + (if dirs.e { 1nat } else { 0 }) + (if dirs.s { 1nat } else { 0 }) + (if dirs.w {
        1nat
    } else {
        0
    })
}

impl RouteDirs {
    /// The set of two directions.
    pub fn pair(a: RouteDir, b: RouteDir) -> (dirs: Self)
        ensures
            dirs == both(a, b),
    {
        RouteDirs {
            n: a == RouteDir::N || b == RouteDir::N,
            e: a == RouteDir::E || b == RouteDir::E,
            s: a == RouteDir::S || b == RouteDir::S,
            w: a == RouteDir::W || b == RouteDir::W,
        }
    }

    /// Whether a direction is in the set.
    pub fn contains(self, dir: RouteDir) -> (found: bool)
        ensures
            found == leads(self, dir),
    {
        match dir {
            RouteDir::N => self.n,
            RouteDir::E => self.e,
            RouteDir::S => self.s,
            RouteDir::W => self.w,
        }
    }

    /// How many directions are in the set.
    pub fn len(self) -> (n: usize)
        ensures
            n == dir_count(self),
    {
        let mut n: usize = 0;
        if self.n {
            n += 1;
        }
        if self.e {
            n += 1;
        }
        if self.s {
            n += 1;
        }
        if self.w {
            n += 1;
        }
        n
    }
}

/// A place, as it is written.
pub open spec fn place_text(place: Place) -> Seq<char> {
    "("@ + text::signed_decimal(place.0) + ", "@ + text::signed_decimal(place.1) + ")"@
}

/// A direction that follows others in a list.
pub open spec fn listed_dir(earlier: Seq<char>, present: bool, dir: RouteDir) -> Seq<char> {
    if !present {
        earlier
    } else if earlier.len() == 1 {
        earlier + dir_text(dir)
    } else {
        earlier + ", "@ + dir_text(dir)
    }
}

/// A set of directions, as it is written.
pub open spec fn dirs_text(dirs: RouteDirs) -> Seq<char> {
    let n = listed_dir("{"@, dirs.n, RouteDir::N);
    let e = listed_dir(n, dirs.e, RouteDir::E);
    let s = listed_dir(e, dirs.s, RouteDir::S);
    listed_dir(s, dirs.w, RouteDir::W) + "}"@
}

/// Appends a place.
pub fn push_place(out: &mut String, place: (i32, i32))
    ensures
        final(out)@ == old(out)@ + place_text(cellmap::place_of(place)),
{
    out.append("(");
    push_i64(out, place.0 as i64);
    out.append(", ");
    push_i64(out, place.1 as i64);
    out.append(")");
    assert(out@ =~= old(out)@ + place_text(cellmap::place_of(place)));
}

fn push_dir(list: &mut String, first: bool, present: bool, dir: RouteDir)
    requires
        first == (old(list)@.len() == 1),
    ensures
        final(list)@ == listed_dir(old(list)@, present, dir),
        final(list)@.len() >= old(list)@.len(),
        present ==> final(list)@.len() > old(list)@.len(),
{
    if present {
        proof {
            reveal_strlit("N");
            reveal_strlit("E");
            reveal_strlit("S");
            reveal_strlit("W");
        }
        if !first {
            list.append(", ");
        }
        list.append(dir.as_str());
    }
}

/// Appends a set of directions.
pub fn push_dirs(out: &mut String, dirs: RouteDirs)
    ensures
        final(out)@ == old(out)@ + dirs_text(dirs),
{
    let mut list: String = "{".to_owned();
    proof {
        reveal_strlit("{");
    }
    push_dir(&mut list, true, dirs.n, RouteDir::N);
    push_dir(&mut list, !dirs.n, dirs.e, RouteDir::E);
    push_dir(&mut list, !dirs.n && !dirs.e, dirs.s, RouteDir::S);
    push_dir(&mut list, !dirs.n && !dirs.e && !dirs.s, dirs.w, RouteDir::W);
    list.append("}");
    out.append(list.as_str());
}

/// The smallest rectangle around the pieces of a routing.
#[derive(Debug, Clone, Copy, PartialEq, Eq, Structural)]
pub struct RouteBounds {
    pub min_x: i32,
    pub min_y: i32,
    pub max_x: i32,
    pub max_y: i32,
}

impl RouteBounds {
    /// The number of columns.
    pub fn width(self) -> (n: usize)
        requires
            i32::MIN <= self.max_x - self.min_x,
            self.max_x - self.min_x + 1 <= i32::MAX,
        ensures
            n == (if self.max_x >= self.min_x {
                self.max_x - self.min_x + 1
            } else {
                0
            }),
    {
        let extent: i32 = self.max_x - self.min_x + 1;
        if extent > 0 {
            extent as usize
        } else {
            0
        }
    }

    /// The number of rows.
    pub fn height(self) -> (n: usize)
        requires
            i32::MIN <= self.max_y - self.min_y,
            self.max_y - self.min_y + 1 <= i32::MAX,
        ensures
            n == (if self.max_y >= self.min_y {
                self.max_y - self.min_y + 1
            } else {
                0
            }),
    {
        let extent: i32 = self.max_y - self.min_y + 1;
        if extent > 0 {
            extent as usize
        } else {
            0
        }
    }
}

/// A piece at a place.
#[derive(Debug, Clone, Copy, PartialEq, Eq)]
pub struct RoutedPiece {
    pub coord: (i32, i32),
    pub spec_name: &'static str,
}

/// A cell of the paths: its tile, and the directions in which it is entered and left.
#[derive(Debug, Clone, Copy, PartialEq, Eq)]
pub struct RoutedCell {
    pub coord: (i32, i32),
    pub spec_name: &'static str,
    pub dirs: RouteDirs,
}

/// Two pieces side by side, with the connector between them.
#[derive(Debug, Clone, Copy, PartialEq, Eq)]
pub struct HorizontalInterface {
    pub left: (i32, i32),
    pub right: (i32, i32),
    pub left_spec_name: &'static str,
    pub connector_spec_name: &'static str,
    pub right_spec_name: &'static str,
}

/// Two pieces, one above the other.
#[derive(Debug, Clone, Copy, PartialEq, Eq)]
pub struct VerticalInterface {
    pub top: (i32, i32),
    pub bottom: (i32, i32),
    pub top_spec_name: &'static str,
    pub bottom_spec_name: &'static str,
}

/// How often pieces of two kinds stand side by side.
#[derive(Debug, Clone, Copy, PartialEq, Eq)]
pub struct HorizontalInterfaceFamily {
    pub left_spec_name: &'static str,
    pub connector_spec_name: &'static str,
    pub right_spec_name: &'static str,
    pub count: usize,
}

/// How often pieces of two kinds stand one above the other.
#[derive(Debug, Clone, Copy, PartialEq, Eq)]
pub struct VerticalInterfaceFamily {
    pub top_spec_name: &'static str,
    pub bottom_spec_name: &'static str,
    pub count: usize,
}

/// The path of a net.
#[derive(Debug, Clone, PartialEq, Eq)]
pub struct NetPathWitness {
    pub net_index: usize,
    pub from: Endpoint,
    pub to: PortRef,
    pub cells: Vec<(i32, i32)>,
    pub turns: usize,
    pub crossings: usize,
}

/// A routing of all nets.
#[derive(Debug, Clone, PartialEq, Eq)]
pub struct RoutingWitness {
    pub bounds: RouteBounds,
    pub pieces: Vec<RoutedPiece>,
    pub route_cells: Vec<RoutedCell>,
    pub horizontal_interfaces: Vec<HorizontalInterface>,
    pub vertical_interfaces: Vec<VerticalInterface>,
    pub horizontal_families: Vec<HorizontalInterfaceFamily>,
    pub vertical_families: Vec<VerticalInterfaceFamily>,
    pub net_paths: Vec<NetPathWitness>,
    pub primitive_usage: StrMap<usize>,
}

/// Why a routing fails, over texts.
pub enum RoutingFailure {
    InputPortDirection,
    UnsupportedPort(Seq<char>, MacroModel),
    ExternalStub,
    UnknownInstance(nat),
    Conflict(Place, nat, RouteDirs, RouteDirs),
    NoPattern(MacroModel),
    NoTile(RouteDirs),
    MissingPiece(Seq<char>, Place),
    UnknownSpec(Seq<char>),
    UnreadablePattern(Seq<char>),
    MissingPhase(Seq<char>, RouteDir),
    MissingConnector(Seq<char>, int, Seq<char>, int),
    NoPieces,
}

/// Why a routing fails.
#[derive(Debug)]
pub enum RoutingError {
    /// An input port has no direction.
    InputPortDirection,
    /// The instance has no such port.
    UnsupportedPort { port: String, kind: MacroKind },
    /// A net leads to an outside input.
    ExternalStub,
    /// There is no such instance.
    UnknownInstance { id: usize },
    /// Two paths meet at a cell other than at right angles.
    Conflict { place: (i32, i32), net: usize, existing: RouteDirs, new: RouteDirs },
    /// An instance of this kind is realised by no pattern.
    NoPattern { kind: MacroKind },
    /// No tile has these directions.
    NoTile { dirs: RouteDirs },
    /// A piece is missing at a side of an interface.
    MissingPiece { side: &'static str, place: (i32, i32) },
    /// The library has no pattern of that name.
    UnknownSpec { name: &'static str },
    /// The phases of a pattern cannot be read from its file.
    UnreadablePattern { name: &'static str },
    /// A pattern has no wire in a direction.
    MissingPhase { name: &'static str, dir: RouteDir },
    /// No connector joins the two phases.
    MissingConnector { left: &'static str, left_phase: i8, right: &'static str, right_phase: i8 },
    /// There is nothing to route.
    NoPieces,
}
impl View for RoutingError {
    type V = RoutingFailure;

    open spec fn view(&self) -> RoutingFailure {
        match *self {
            RoutingError::InputPortDirection => RoutingFailure::InputPortDirection,
            RoutingError::UnsupportedPort { port, kind } => RoutingFailure::UnsupportedPort(port@, kind@),
            RoutingError::ExternalStub => RoutingFailure::ExternalStub,
            RoutingError::UnknownInstance { id } => RoutingFailure::UnknownInstance(id as nat),
            RoutingError::Conflict { place, net, existing, new } => RoutingFailure::Conflict(
                cellmap::place_of(place),
                net as nat,
                existing,
                new,
            ),
            RoutingError::NoPattern { kind } => RoutingFailure::NoPattern(kind@),
            RoutingError::NoTile { dirs } => RoutingFailure::NoTile(dirs),
            RoutingError::MissingPiece { side, place } => RoutingFailure::MissingPiece(
                side@,
                cellmap::place_of(place),
            ),
            RoutingError::UnknownSpec { name } => RoutingFailure::UnknownSpec(name@),
            RoutingError::UnreadablePattern { name } => RoutingFailure::UnreadablePattern(name@),
            RoutingError::MissingPhase { name, dir } => RoutingFailure::MissingPhase(name@, dir),
            RoutingError::MissingConnector { left, left_phase, right, right_phase } => RoutingFailure::MissingConnector(
                left@,
                left_phase as int,
                right@,
                right_phase as int,
            ),
            RoutingError::NoPieces => RoutingFailure::NoPieces,
        }
    }
}

/// The message of a failure.
pub open spec fn routing_text(failure: RoutingFailure) -> Seq<char> {
    match failure {
        RoutingFailure::InputPortDirection => "Input ports do not have routed directions"@,
        RoutingFailure::UnsupportedPort(port, kind) => "Unsupported routed port '"@ + port + "' on "@
            + compiler::kind_text(kind),
        RoutingFailure::ExternalStub => "External inputs do not have fixed instance stubs"@,
        RoutingFailure::UnknownInstance(id) => "Unknown macro instance "@ + text::decimal(id),
        RoutingFailure::Conflict(place, net, existing, new) => "Routing witness conflict at "@ + place_text(place)
            + " for net "@ + text::decimal(net) + ": existing "@ + dirs_text(existing) + ", new "@ + dirs_text(new),
        RoutingFailure::NoPattern(kind) => "No published spec for "@ + compiler::kind_text(kind),
        RoutingFailure::NoTile(dirs) => "No routing tile for direction set "@ + dirs_text(dirs),
        RoutingFailure::MissingPiece(side, place) => "Missing "@ + side + " routed piece at "@ + place_text(place),
        RoutingFailure::UnknownSpec(name) => "Unknown published spec '"@ + name + "'"@,
        RoutingFailure::UnreadablePattern(name) => "Failed to load published pattern '"@ + name
            + "' for phase alignment fallback"@,
        RoutingFailure::MissingPhase(name, dir) => "Published spec '"@ + name + "' is missing "@ + dir_text(dir)
            + " phase"@,
        RoutingFailure::MissingConnector(left, left_phase, right, right_phase) => "Missing connector for "@ + left
            + " east phase "@ + text::signed_decimal(left_phase) + " to "@ + right + " west phase "@
            + text::signed_decimal(right_phase),
        RoutingFailure::NoPieces => "Missing minimum x for routing witness"@,
    }
}

impl RoutingError {
    /// The message of the error.
    pub fn to_string(&self) -> (message: String)
        ensures
            message@ == routing_text(self@),
    {
        match self {
            RoutingError::InputPortDirection => "Input ports do not have routed directions".to_owned(),
            RoutingError::UnsupportedPort { port, kind } => {
                let mut out: String = "Unsupported routed port '".to_owned();
                out.append(port.as_str());
                out.append("' on ");
                out.append(kind.rendered().as_str());
                out
            },
            RoutingError::ExternalStub => "External inputs do not have fixed instance stubs".to_owned(),
            RoutingError::UnknownInstance { id } => {
                let mut out: String = "Unknown macro instance ".to_owned();
                push_usize(&mut out, *id);
                out
            },
            RoutingError::Conflict { place, net, existing, new } => {
                let mut out: String = "Routing witness conflict at ".to_owned();
                push_place(&mut out, *place);
                out.append(" for net ");
                push_usize(&mut out, *net);
                out.append(": existing ");
                push_dirs(&mut out, *existing);
                out.append(", new ");
                push_dirs(&mut out, *new);
                out
            },
            RoutingError::NoPattern { kind } => {
                let mut out: String = "No published spec for ".to_owned();
                out.append(kind.rendered().as_str());
                out
            },
            RoutingError::NoTile { dirs } => {
                let mut out: String = "No routing tile for direction set ".to_owned();
                push_dirs(&mut out, *dirs);
                out
            },
            RoutingError::MissingPiece { side, place } => {
                let mut out: String = "Missing ".to_owned();
                out.append(*side);
                out.append(" routed piece at ");
                push_place(&mut out, *place);
                out
            },
            RoutingError::UnknownSpec { name } => {
                let mut out: String = "Unknown published spec '".to_owned();
                out.append(*name);
                out.append("'");
                out
            },
            RoutingError::UnreadablePattern { name } => {
                let mut out: String = "Failed to load published pattern '".to_owned();
                out.append(*name);
                out.append("' for phase alignment fallback");
                out
            },
            RoutingError::MissingPhase { name, dir } => {
                let mut out: String = "Published spec '".to_owned();
                out.append(*name);
                out.append("' is missing ");
                out.append(dir.as_str());
                out.append(" phase");
                out
            },
            RoutingError::MissingConnector { left, left_phase, right, right_phase } => {
                let mut out: String = "Missing connector for ".to_owned();
                out.append(*left);
                out.append(" east phase ");
                push_i64(&mut out, *left_phase as i64);
                out.append(" to ");
                out.append(*right);
                out.append(" west phase ");
                push_i64(&mut out, *right_phase as i64);
                out
            },
            RoutingError::NoPieces => "Missing minimum x for routing witness".to_owned(),
        }
    }
}

/// The direction in which a port of an instance faces.
pub open spec fn port_dir(kind: MacroModel, port: Seq<char>) -> Result<RouteDir, RoutingFailure> {
    match kind {
        MacroModel::InputPort(_) => Err(RoutingFailure::InputPortDirection),
        MacroModel::NotGate => if port == "in"@ {
            Ok(RouteDir::W)
        } else if port == "out"@ {
            Ok(RouteDir::E)
        } else {
            Err(RoutingFailure::UnsupportedPort(port, kind))
        },
        MacroModel::OrGate => if port == "lhs"@ {
            Ok(RouteDir::N)
        } else if port == "rhs"@ {
            Ok(RouteDir::S)
        } else if port == "out"@ {
            Ok(RouteDir::E)
        } else {
            Err(RoutingFailure::UnsupportedPort(port, kind))
        },
        MacroModel::Splitter => if port == "in"@ {
            Ok(RouteDir::S)
        } else if port == "out0"@ {
            Ok(RouteDir::E)
        } else if port == "out1"@ {
            Ok(RouteDir::N)
        } else {
            Err(RoutingFailure::UnsupportedPort(port, kind))
        },
        MacroModel::Enforcer => if port == "in"@ {
            Ok(RouteDir::W)
        } else {
            Err(RoutingFailure::UnsupportedPort(port, kind))
        },
    }
}

/// The direction in which a port of an instance faces.
pub fn macro_port_dir(kind: &MacroKind, port: &str) -> (result: Result<RouteDir, RoutingError>)
    ensures
        match port_dir(kind@, port@) {
            Ok(dir) => result == Ok::<RouteDir, RoutingError>(dir),
            Err(failure) => result matches Err(error) && error@ == failure,
        },
{
    let found: Option<RouteDir> = match kind {
        MacroKind::InputPort { .. } => {
            return Err(RoutingError::InputPortDirection);
        },
        MacroKind::NotGate => if same_text(port, "in") {
            Some(RouteDir::W)
        } else if same_text(port, "out") {
            Some(RouteDir::E)
        } else {
            None
        },
        MacroKind::OrGate => if same_text(port, "lhs") {
            Some(RouteDir::N)
        } else if same_text(port, "rhs") {
            Some(RouteDir::S)
        } else if same_text(port, "out") {
            Some(RouteDir::E)
        } else {
            None
        },
        MacroKind::Splitter => if same_text(port, "in") {
            Some(RouteDir::S)
        } else if same_text(port, "out0") {
            Some(RouteDir::E)
        } else if same_text(port, "out1") {
            Some(RouteDir::N)
        } else {
            None
        },
        MacroKind::Enforcer => if same_text(port, "in") {
            Some(RouteDir::W)
        } else {
            None
        },
    };
    match found {
        Some(dir) => Ok(dir),
        None => Err(RoutingError::UnsupportedPort { port: port.to_owned(), kind: kind.clone() }),
    }
}

/// The cells of paths, with the directions in which they are entered and left.
pub type RouteCells = Map<Place, RouteDirs>;

/// The directions of a cell of a path.
pub open spec fn cell_dirs(path: Seq<Place>, k: int, source: RouteDir, target: RouteDir) -> RouteDirs {
    both(
        if k == 0 {
            source
        } else {
            back(lanes::heading(path[k - 1], path[k]))
        },
        if k == path.len() - 1 {
            target
        } else {
            lanes::heading(path[k], path[k + 1])
        },
    )
}

/// A cell runs straight from west to east.
pub open spec fn level() -> RouteDirs {
    both(RouteDir::E, RouteDir::W)
}

/// A cell runs straight from north to south.
pub open spec fn upright() -> RouteDirs {
    both(RouteDir::N, RouteDir::S)
}

/// The cells after a net has entered one: a straight cell that is crossed becomes a
/// crossing, and a cell that is entered alike stays as it is.
pub open spec fn placed(
    cells: RouteCells,
    place: Place,
    dirs: RouteDirs,
    net: nat,
) -> Result<RouteCells, RoutingFailure> {
    if !cells.contains_key(place) {
        Ok(cells.insert(place, dirs))
    } else if (cells[place] == level() && dirs == upright()) || (cells[place] == upright() && dirs == level()) {
        Ok(cells.insert(place, every_way()))
    } else if cells[place] == dirs {
        Ok(cells)
    } else {
        Err(RoutingFailure::Conflict(place, net, cells[place], dirs))
    }
}

/// The cells after a net has entered the first `k` cells of its path.
pub open spec fn laid(
    cells: RouteCells,
    path: Seq<Place>,
    source: RouteDir,
    target: RouteDir,
    net: nat,
    k: nat,
) -> Result<RouteCells, RoutingFailure>
    decreases k,
{
    if k == 0 {
        Ok(cells)
    } else {
        match laid(cells, path, source, target, net, (k - 1) as nat) {
            Err(failure) => Err(failure),
            Ok(earlier) => placed(earlier, path[k - 1], cell_dirs(path, k - 1, source, target), net),
        }
    }
}

/// The cells after the first `k` nets.
pub open spec fn routed(c: ConstructionModel, k: nat) -> Result<RouteCells, RoutingFailure>
    decreases k,
{
    if k == 0 {
        Ok(Map::empty())
    } else {
        let net = (k - 1) as nat;
        match routed(c, net) {
            Err(failure) => Err(failure),
            Ok(cells) => match lanes::stub_of(c, c.nets[k - 1].to) {
                Err(failure) => Err(failure),
                Ok(target) => match lanes::source_of(c, net) {
                    Err(failure) => Err(failure),
                    Ok(source) => {
                        let path = lanes::path_of(c, net, source, target);
                        laid(cells, path, source.back, target.back, net, path.len())
                    },
                },
            },
        }
    }
}

/// Where the routing comes to a net whose source is an outside input, it is one of the
/// construction's variables.
pub open spec fn sources_known(c: ConstructionModel) -> bool {
    forall|k: int|
        0 <= k < c.nets.len() && routed(c, k as nat) is Ok && lanes::stub_of(c, c.nets[k].to) is Ok ==> (
        #[trigger] c.nets[k].from matches EndpointModel::External(variable) ==> c.variables.contains(variable))
}

/// The paths of the first `k` nets.
pub open spec fn net_path(c: ConstructionModel, net: nat) -> Seq<Place> {
    lanes::path_of(c, net, lanes::source_of(c, net)->Ok_0, lanes::stub_of(c, c.nets[net as int].to)->Ok_0)
}

/// The tile with the given directions.
pub open spec fn tile_of(dirs: RouteDirs) -> Option<Seq<char>> {
    if dirs == upright() {
        Some("vertical wire tile"@)
    } else if dirs == level() {
        Some("horizontal wire tile"@)
    } else if dirs == both(RouteDir::N, RouteDir::E) {
        Some("NE turn tile"@)
    } else if dirs == both(RouteDir::N, RouteDir::W) {
        Some("NW turn tile"@)
    } else if dirs == both(RouteDir::S, RouteDir::W) {
        Some("SW turn tile"@)
    } else if dirs == both(RouteDir::E, RouteDir::S) {
        Some("SE turn tile"@)
    } else if dirs == every_way() {
        Some("crossing tile"@)
    } else {
        None
    }
}

/// The tile with the given directions.
fn routing_spec_for_dirs(dirs: RouteDirs) -> (name: Option<&'static str>)
    ensures
        match name {
            Some(text) => tile_of(dirs) == Some(text@),
            None => tile_of(dirs) is None,
        },
{
    if dirs == RouteDirs::pair(RouteDir::N, RouteDir::S) {
        Some("vertical wire tile")
    } else if dirs == RouteDirs::pair(RouteDir::E, RouteDir::W) {
        Some("horizontal wire tile")
    } else if dirs == RouteDirs::pair(RouteDir::N, RouteDir::E) {
        Some("NE turn tile")
    } else if dirs == RouteDirs::pair(RouteDir::N, RouteDir::W) {
        Some("NW turn tile")
    } else if dirs == RouteDirs::pair(RouteDir::S, RouteDir::W) {
        Some("SW turn tile")
    } else if dirs == RouteDirs::pair(RouteDir::E, RouteDir::S) {
        Some("SE turn tile")
    } else if dirs.n && dirs.e && dirs.s && dirs.w {
        Some("crossing tile")
    } else {
        None
    }
}

/// A net enters a cell.
fn place_route_cell(
    cells: &mut PlaceMap<RouteDirs>,
    cell: (i32, i32),
    dirs: RouteDirs,
    net: usize,
) -> (result: Result<(), RoutingError>)
    ensures
        match placed(old(cells)@, cellmap::place_of(cell), dirs, net as nat) {
            Ok(after) => result is Ok && final(cells)@ == after,
            Err(failure) => result matches Err(error) && error@ == failure,
        },
{
    match cells.get(cell) {
        None => {
            cells.insert(cell, dirs);
            Ok(())
        },
        Some(existing) => {
            let horizontal: RouteDirs = RouteDirs::pair(RouteDir::E, RouteDir::W);
            let vertical: RouteDirs = RouteDirs::pair(RouteDir::N, RouteDir::S);
            if (existing == horizontal && dirs == vertical) || (existing == vertical && dirs == horizontal) {
                cells.insert(cell, RouteDirs { n: true, e: true, s: true, w: true });
                Ok(())
            } else if existing == dirs {
                Ok(())
            } else {
                Err(RoutingError::Conflict { place: cell, net, existing, new: dirs })
            }
        },
    }
}

proof fn lemma_laid_fails(
    cells: RouteCells,
    path: Seq<Place>,
    source: RouteDir,
    target: RouteDir,
    net: nat,
    j: nat,
    k: nat,
)
    requires
        j <= k,
        laid(cells, path, source, target, net, j) is Err,
    ensures
        laid(cells, path, source, target, net, k) == laid(cells, path, source, target, net, j),
    decreases k,
{
    if j < k {
        lemma_laid_fails(cells, path, source, target, net, j, (k - 1) as nat);
    }
}

/// A net enters the cells of its path.
fn install_path(
    cells: &mut PlaceMap<RouteDirs>,
    source: RouteDir,
    target: RouteDir,
    net: usize,
    path: &Vec<(i32, i32)>,
) -> (result: Result<(), RoutingError>)
    requires
        path@.len() >= 2,
        lanes::is_walk(lanes::places(path@)),
    ensures
        match laid(old(cells)@, lanes::places(path@), source, target, net as nat, path@.len()) {
            Ok(after) => result is Ok && final(cells)@ == after,
            Err(failure) => result matches Err(error) && error@ == failure,
        },
{
    let ghost way = lanes::places(path@);
    let ghost before = cells@;
    let mut k: usize = 0;
    while k < path.len()
        invariant
            k <= path@.len(),
            path@.len() >= 2,
            before == old(cells)@,
            way == lanes::places(path@),
            lanes::is_walk(way),
            laid(before, way, source, target, net as nat, k as nat) == Ok::<RouteCells, RoutingFailure>(cells@),
        decreases path.len() - k,
    {
        assert(way[k as int] == cellmap::place_of(path@[k as int]));
        let incoming: RouteDir = if k == 0 {
            source
        } else {
            assert(way[k - 1] == cellmap::place_of(path@[k - 1]));
            assert(lanes::adjacent(way[k - 1], way[k as int]));
            match direction_between(path[k - 1], path[k]) {
                Some(dir) => dir.opposite(),
                None => source,
            }
        };
        let outgoing: RouteDir = if k + 1 == path.len() {
            target
        } else {
            assert(way[k + 1] == cellmap::place_of(path@[k + 1]));
            assert(lanes::adjacent(way[k as int], way[k + 1]));
            match direction_between(path[k], path[k + 1]) {
                Some(dir) => dir,
                None => target,
            }
        };
        let dirs: RouteDirs = RouteDirs::pair(incoming, outgoing);
        assert(dirs == cell_dirs(way, k as int, source, target));
        match place_route_cell(cells, path[k], dirs, net) {
            Ok(_) => {},
            Err(error) => {
                proof {
                    lemma_laid_fails(before, way, source, target, net as nat, (k + 1) as nat, way.len());
                }
                return Err(error);
            },
        }
        k += 1;
    }
    Ok(())
}

pub(crate) proof fn lemma_routed_fails(c: ConstructionModel, j: nat, k: nat)
    requires
        j <= k,
        routed(c, j) is Err,
    ensures
        routed(c, k) == routed(c, j),
    decreases k,
{
    if j < k {
        lemma_routed_fails(c, j, (k - 1) as nat);
    }
}

/// The paths are those of the nets.
pub open spec fn are_net_paths(c: ConstructionModel, paths: Seq<Vec<(i32, i32)>>) -> bool {
    &&& paths.len() == c.nets.len()
    &&& forall|k: int|
        0 <= k < paths.len() ==> lanes::places((#[trigger] paths[k])@) == net_path(c, k as nat) && lanes::is_walk(
            lanes::places(paths[k]@),
        )
}

/// All cells lie nearby.
pub open spec fn all_nearby(c: ConstructionModel, cells: RouteCells) -> bool {
    forall|p: Place| #[trigger] cells.contains_key(p) ==> lanes::nearby(c, p)
}

proof fn lemma_laid_nearby(
    c: ConstructionModel,
    cells: RouteCells,
    path: Seq<Place>,
    source: RouteDir,
    target: RouteDir,
    net: nat,
    k: nat,
)
    requires
        all_nearby(c, cells),
        k <= path.len(),
        forall|i: int| 0 <= i < path.len() ==> lanes::nearby(c, #[trigger] path[i]),
    ensures
        laid(cells, path, source, target, net, k) matches Ok(after) ==> all_nearby(c, after),
    decreases k,
{
    if k > 0 {
        lemma_laid_nearby(c, cells, path, source, target, net, (k - 1) as nat);
        assert(lanes::nearby(c, path[k - 1]));
    }
}

proof fn lemma_pieces_nearby(c: ConstructionModel, k: nat)
    requires
        lanes::board_fits(c),
        k <= c.instances.len(),
    ensures
        instance_pieces(c, k) matches Ok(pieces) ==> forall|p: Place| #[trigger]
            pieces.contains_key(p) ==> lanes::nearby(c, p),
    decreases k,
{
    if k > 0 {
        lemma_pieces_nearby(c, (k - 1) as nat);
        lanes::lemma_position_inside(c, c.instances.len(), c.instances[k - 1].id);
    }
}

/// The extent of a rectangle is within the range of coordinates.
pub open spec fn extent_fits(bounds: RouteBounds) -> bool {
    &&& i32::MIN <= bounds.max_x - bounds.min_x < i32::MAX
    &&& i32::MIN <= bounds.max_y - bounds.min_y < i32::MAX
}

/// The cells and the paths of all nets.
pub(crate) fn route_nets(construction: &CompiledConstruction) -> (result: Result<
    (PlaceMap<RouteDirs>, Vec<Vec<(i32, i32)>>),
    RoutingError,
>)
    requires
        lanes::board_fits(construction@),
        construction.variable_inputs.wf(),
        sources_known(construction@),
    ensures
        match routed(construction@, construction@.nets.len()) {
            Ok(cells) => result matches Ok(found) && found.0@ == cells && are_net_paths(construction@, found.1@)
                && all_nearby(construction@, cells),
            Err(failure) => result matches Err(error) && error@ == failure,
        },
{
    let ghost c = construction@;
    let lanes: Lanes = Lanes::new(construction);
    let mut cells: PlaceMap<RouteDirs> = PlaceMap::new();
    let mut paths: Vec<Vec<(i32, i32)>> = Vec::new();
    let mut k: usize = 0;
    while k < construction.nets.len()
        invariant
            k <= construction.nets@.len(),
            c == construction@,
            lanes.wf(),
            lanes.construction == construction,
            sources_known(c),
            routed(c, k as nat) == Ok::<RouteCells, RoutingFailure>(cells@),
            all_nearby(c, cells@),
            paths@.len() == k,
            forall|j: int|
                0 <= j < k ==> lanes::places((#[trigger] paths@[j])@) == net_path(c, j as nat) && lanes::is_walk(
                    lanes::places(paths@[j]@),
                ),
        decreases construction.nets.len() - k,
    {
        assert(c.nets[k as int] == construction.nets@[k as int]@);
        let target: Stub = match lanes.instance_endpoint_stub(&construction.nets[k].to) {
            Ok(stub) => stub,
            Err(error) => {
                proof {
                    lemma_routed_fails(c, (k + 1) as nat, c.nets.len());
                }
                return Err(error);
            },
        };
        let source: Stub = match lanes.source_stub(k) {
            Ok(stub) => stub,
            Err(error) => {
                proof {
                    lemma_routed_fails(c, (k + 1) as nat, c.nets.len());
                }
                return Err(error);
            },
        };
        let path: Vec<(i32, i32)> = lanes.route_path(k, source, target);
        proof {
            lanes::lemma_path_nearby(c, k as nat, source@, target@);
            lemma_laid_nearby(c, cells@, lanes::places(path@), source.back_dir, target.back_dir, k as nat, path@.len());
        }
        match install_path(&mut cells, source.back_dir, target.back_dir, k, &path) {
            Ok(_) => {},
            Err(error) => {
                proof {
                    lemma_routed_fails(c, (k + 1) as nat, c.nets.len());
                }
                return Err(error);
            },
        }
        paths.push(path);
        k += 1;
    }
    Ok((cells, paths))
}

/// Names of pieces, as texts.
pub open spec fn piece_texts(pieces: Map<Place, &'static str>) -> Map<Place, Seq<char>> {
    pieces.map_values(|name: &'static str| name@)
}

/// The patterns of the first `k` instances, where they stand.
pub open spec fn instance_pieces(c: ConstructionModel, k: nat) -> Result<Map<Place, Seq<char>>, RoutingFailure>
    decreases k,
{
    if k == 0 {
        Ok(Map::empty())
    } else {
        match instance_pieces(c, (k - 1) as nat) {
            Err(failure) => Err(failure),
            Ok(earlier) => match compiler::published_name(c.instances[k - 1].kind) {
                None => Err(RoutingFailure::NoPattern(c.instances[k - 1].kind)),
                Some(name) => Ok(earlier.insert(lanes::position(c, c.instances[k - 1].id), name)),
            },
        }
    }
}

/// No tile fits a cell, and no such cell comes before it.
pub open spec fn is_first_untiled(cells: RouteCells, place: Place) -> bool {
    &&& cells.contains_key(place)
    &&& tile_of(cells[place]) is None
    &&& forall|p: Place| #[trigger] cells.contains_key(p) && cellmap::place_less(p, place) ==> tile_of(cells[p]) is Some
}

/// Some cell is fitted by no tile.
pub open spec fn some_untiled(cells: RouteCells) -> bool {
    exists|p: Place| #[trigger] cells.contains_key(p) && tile_of(cells[p]) is None
}

/// All pieces: the instances, and the tiles of the cells elsewhere.
pub open spec fn all_pieces(cells: RouteCells, fixed: Map<Place, Seq<char>>) -> Map<Place, Seq<char>> {
    Map::new(
        |p: Place| fixed.contains_key(p) || cells.contains_key(p),
        |p: Place|
            if fixed.contains_key(p) {
                fixed[p]
            } else {
                tile_of(cells[p])->Some_0
            },
    )
}

/// A cell is joined to its neighbour: each leads to the other.
pub open spec fn joined(cells: RouteCells, place: Place, dir: RouteDir) -> bool {
    &&& cells.contains_key(place)
    &&& leads(cells[place], dir)
    &&& cells.contains_key(lanes::moved(place, dir))
    &&& leads(cells[lanes::moved(place, dir)], back(dir))
}

/// A net joins the pieces at a place and at its neighbour, one of which is the instance
/// of the given end.
pub open spec fn linked(c: ConstructionModel, end: EndpointModel, place: Place, dir: RouteDir) -> bool {
    match end {
        EndpointModel::External(_) => false,
        EndpointModel::Port(id, port) => match lanes::stub_of(c, end) {
            Err(_) => false,
            Ok(stub) => (stub.back == back(dir) && place == lanes::position(c, id)) || (stub.back == dir && place
                == stub.place),
        },
    }
}

/// One of the first `k` nets joins the pieces at a place and at its neighbour.
pub open spec fn some_link(c: ConstructionModel, k: nat, place: Place, dir: RouteDir) -> bool {
    exists|i: int| #![trigger c.nets[i]]
        0 <= i < k && (linked(c, c.nets[i].to, place, dir) || linked(c, c.nets[i].from, place, dir))
}

/// The places that are joined to their neighbours.
pub open spec fn seam(c: ConstructionModel, cells: RouteCells, dir: RouteDir) -> Set<Place> {
    Set::new(|p: Place| joined(cells, p, dir) || some_link(c, c.nets.len(), p, dir))
}

/// The phase in a direction.
pub open spec fn phase_in(align: Alignment, dir: RouteDir) -> Option<i8> {
    match dir {
        RouteDir::E => align.0,
        RouteDir::N => align.1,
        RouteDir::W => align.2,
        RouteDir::S => align.3,
    }
}

/// The phases of the wires of a pattern: those that the library states, or else those of
/// the cells in its file.
pub open spec fn stated_alignment(files: &PatternFiles, name: Seq<char>) -> Result<Alignment, RoutingFailure> {
    match library::spec_named(name) {
        None => Err(RoutingFailure::UnknownSpec(name)),
        Some(spec) => match spec.align {
            Some(align) => Ok(align),
            None => match published::pattern_in_files(files, spec.path) {
                Err(_) => Err(RoutingFailure::UnreadablePattern(name)),
                Ok(rows) => Ok(published::alignment_in(rows)),
            },
        },
    }
}

/// The phase of a pattern's wire in a direction.
pub open spec fn wire_phase(files: &PatternFiles, name: Seq<char>, dir: RouteDir) -> Result<i8, RoutingFailure> {
    match stated_alignment(files, name) {
        Err(failure) => Err(failure),
        Ok(align) => match phase_in(align, dir) {
            None => Err(RoutingFailure::MissingPhase(name, dir)),
            Some(phase) => Ok(phase),
        },
    }
}

/// A connector joins a wire of one phase in its west to one of another phase in its east.
pub open spec fn connects(align: Option<Alignment>, west: i8, east: i8) -> bool {
    align matches Some(phases) && phases.2 == Some(west) && phases.0 == Some(east)
}

/// The last of the first `k` connectors that joins two phases.
pub open spec fn connector_among(k: nat, west: i8, east: i8) -> Option<Seq<char>>
    decreases k,
{
    if k == 0 {
        None
    } else if connects(library::connector_table()[k - 1].align, west, east) {
        Some(library::connector_table()[k - 1].name)
    } else {
        connector_among((k - 1) as nat, west, east)
    }
}

/// The connector that joins two phases.
pub open spec fn connector_for(west: i8, east: i8) -> Option<Seq<char>> {
    connector_among(library::connector_table().len(), west, east)
}

/// The connector between two pieces.
pub open spec fn connector_between(
    files: &PatternFiles,
    left: Seq<char>,
    right: Seq<char>,
) -> Result<Seq<char>, RoutingFailure> {
    match wire_phase(files, left, RouteDir::E) {
        Err(failure) => Err(failure),
        Ok(west) => match wire_phase(files, right, RouteDir::W) {
            Err(failure) => Err(failure),
            Ok(east) => match connector_for(west, east) {
                Some(name) => Ok(name),
                None => Err(RoutingFailure::MissingConnector(left, west as int, right, east as int)),
            },
        },
    }
}

/// The pieces that are joined at a place to the piece in its east, and their connector.
pub open spec fn across(
    files: &PatternFiles,
    pieces: Map<Place, Seq<char>>,
    place: Place,
) -> Result<Names, RoutingFailure> {
    let next = lanes::moved(place, RouteDir::E);
    if !pieces.contains_key(place) {
        Err(RoutingFailure::MissingPiece("left"@, place))
    } else if !pieces.contains_key(next) {
        Err(RoutingFailure::MissingPiece("right"@, next))
    } else {
        match connector_between(files, pieces[place], pieces[next]) {
            Err(failure) => Err(failure),
            Ok(connector) => Ok(seq![pieces[place], connector, pieces[next]]),
        }
    }
}

/// The pieces that are joined at a place to the piece in its south.
pub open spec fn down(pieces: Map<Place, Seq<char>>, place: Place) -> Result<Names, RoutingFailure> {
    let next = lanes::moved(place, RouteDir::S);
    if !pieces.contains_key(place) {
        Err(RoutingFailure::MissingPiece("top"@, place))
    } else if !pieces.contains_key(next) {
        Err(RoutingFailure::MissingPiece("bottom"@, next))
    } else {
        Ok(seq![pieces[place], pieces[next]])
    }
}

/// The joined pieces at the first `k` places, from west to east.
pub open spec fn all_across(
    files: &PatternFiles,
    pieces: Map<Place, Seq<char>>,
    order: Seq<Place>,
    k: nat,
) -> Result<Seq<Names>, RoutingFailure>
    decreases k,
{
    if k == 0 {
        Ok(Seq::empty())
    } else {
        match all_across(files, pieces, order, (k - 1) as nat) {
            Err(failure) => Err(failure),
            Ok(earlier) => match across(files, pieces, order[k - 1]) {
                Err(failure) => Err(failure),
                Ok(names) => Ok(earlier.push(names)),
            },
        }
    }
}

/// The joined pieces at the first `k` places, from north to south.
pub open spec fn all_down(pieces: Map<Place, Seq<char>>, order: Seq<Place>, k: nat) -> Result<
    Seq<Names>,
    RoutingFailure,
>
    decreases k,
{
    if k == 0 {
        Ok(Seq::empty())
    } else {
        match all_down(pieces, order, (k - 1) as nat) {
            Err(failure) => Err(failure),
            Ok(earlier) => match down(pieces, order[k - 1]) {
                Err(failure) => Err(failure),
                Ok(names) => Ok(earlier.push(names)),
            },
        }
    }
}

/// How often a path changes its direction within its first `k` cells.
pub open spec fn turn_count(path: Seq<Place>, k: nat) -> nat
    decreases k,
{
    if k < 3 {
        0
    } else {
        turn_count(path, (k - 1) as nat) + (if lanes::heading(path[k - 3], path[k - 2]) != lanes::heading(
            path[k - 2],
            path[k - 1],
        ) {
            1nat
        } else {
            0
        })
    }
}

/// How many of the first `k` cells of a path are crossings.
pub open spec fn crossing_count(cells: RouteCells, path: Seq<Place>, k: nat) -> nat
    decreases k,
{
    if k == 0 {
        0
    } else {
        crossing_count(cells, path, (k - 1) as nat) + (if cells.contains_key(path[k - 1]) && dir_count(
            cells[path[k - 1]],
        ) == 4 {
            1nat
        } else {
            0
        })
    }
}

/// The rectangle is the smallest around the places.
pub open spec fn is_bounds(bounds: RouteBounds, places: Set<Place>) -> bool {
    &&& forall|p: Place| #[trigger]
        places.contains(p) ==> bounds.min_x <= p.0 <= bounds.max_x && bounds.min_y <= p.1 <= bounds.max_y
    &&& exists|p: Place| #[trigger] places.contains(p) && p.0 == bounds.min_x
    &&& exists|p: Place| #[trigger] places.contains(p) && p.0 == bounds.max_x
    &&& exists|p: Place| #[trigger] places.contains(p) && p.1 == bounds.min_y
    &&& exists|p: Place| #[trigger] places.contains(p) && p.1 == bounds.max_y
}

/// The pieces are listed in the order of their places.
pub open spec fn lists_pieces(list: Seq<RoutedPiece>, pieces: Map<Place, Seq<char>>) -> bool {
    let order = cellmap::ordered(pieces.dom());
    &&& list.len() == order.len()
    &&& forall|i: int|
        0 <= i < list.len() ==> cellmap::place_of((#[trigger] list[i]).coord) == order[i] && pieces.contains_key(order[i])
            && list[i].spec_name@ == pieces[order[i]]
}

/// The cells are listed in the order of their places.
pub open spec fn lists_cells(list: Seq<RoutedCell>, cells: RouteCells) -> bool {
    let order = cellmap::ordered(cells.dom());
    &&& list.len() == order.len()
    &&& forall|i: int|
        0 <= i < list.len() ==> cellmap::place_of((#[trigger] list[i]).coord) == order[i] && cells.contains_key(order[i])
            && list[i].dirs == cells[order[i]] && tile_of(cells[order[i]]) == Some(list[i].spec_name@)
}

/// The names at an interface.
pub open spec fn horizontal_names(item: HorizontalInterface) -> Names {
    seq![item.left_spec_name@, item.connector_spec_name@, item.right_spec_name@]
}

/// The names at an interface.
pub open spec fn vertical_names(item: VerticalInterface) -> Names {
    seq![item.top_spec_name@, item.bottom_spec_name@]
}

/// The interfaces at places, from west to east.
pub open spec fn lists_across(list: Seq<HorizontalInterface>, order: Seq<Place>, names: Seq<Names>) -> bool {
    &&& list.len() == order.len()
    &&& list.len() == names.len()
    &&& forall|i: int|
        0 <= i < list.len() ==> cellmap::place_of((#[trigger] list[i]).left) == order[i] && cellmap::place_of(
            list[i].right,
        ) == lanes::moved(order[i], RouteDir::E) && horizontal_names(list[i]) == names[i]
}

/// The interfaces at places, from north to south.
pub open spec fn lists_down(list: Seq<VerticalInterface>, order: Seq<Place>, names: Seq<Names>) -> bool {
    &&& list.len() == order.len()
    &&& list.len() == names.len()
    &&& forall|i: int|
        0 <= i < list.len() ==> cellmap::place_of((#[trigger] list[i]).top) == order[i] && cellmap::place_of(
            list[i].bottom,
        ) == lanes::moved(order[i], RouteDir::S) && vertical_names(list[i]) == names[i]
}

/// The names of a family.
pub open spec fn horizontal_family_names(family: HorizontalInterfaceFamily) -> Names {
    seq![family.left_spec_name@, family.connector_spec_name@, family.right_spec_name@]
}

/// The names of a family.
pub open spec fn vertical_family_names(family: VerticalInterfaceFamily) -> Names {
    seq![family.top_spec_name@, family.bottom_spec_name@]
}

/// The families that occur, in the order of their names, with how often they occur.
pub open spec fn are_horizontal_families(families: Seq<HorizontalInterfaceFamily>, list: Seq<Names>) -> bool {
    &&& forall|i: int, j: int| #![trigger families[i], families[j]]
        0 <= i < j < families.len() ==> tally::names_less(
            horizontal_family_names(families[i]),
            horizontal_family_names(families[j]),
        )
    &&& forall|i: int|
        0 <= i < families.len() ==> (#[trigger] families[i]).count == tally::occurrences(
            list,
            horizontal_family_names(families[i]),
        ) && families[i].count > 0
    &&& forall|key: Names| #[trigger]
        list.contains(key) ==> exists|i: int|
            0 <= i < families.len() && horizontal_family_names(#[trigger] families[i]) == key
}

/// The families that occur, in the order of their names, with how often they occur.
pub open spec fn are_vertical_families(families: Seq<VerticalInterfaceFamily>, list: Seq<Names>) -> bool {
    &&& forall|i: int, j: int| #![trigger families[i], families[j]]
        0 <= i < j < families.len() ==> tally::names_less(
            vertical_family_names(families[i]),
            vertical_family_names(families[j]),
        )
    &&& forall|i: int|
        0 <= i < families.len() ==> (#[trigger] families[i]).count == tally::occurrences(
            list,
            vertical_family_names(families[i]),
        ) && families[i].count > 0
    &&& forall|key: Names| #[trigger]
        list.contains(key) ==> exists|i: int|
            0 <= i < families.len() && vertical_family_names(#[trigger] families[i]) == key
}

/// The path of a net, with its turns and its crossings.
pub open spec fn is_path_witness(c: ConstructionModel, cells: RouteCells, k: int, path: NetPathWitness) -> bool {
    let way = net_path(c, k as nat);
    &&& path.net_index == k
    &&& path.from@ == c.nets[k].from
    &&& c.nets[k].to == EndpointModel::Port(path.to@.0, path.to@.1)
    &&& lanes::places(path.cells@) == way
    &&& path.turns == turn_count(way, way.len())
    &&& path.crossings == crossing_count(cells, way, way.len())
}

/// The paths of all nets.
pub open spec fn are_path_witnesses(c: ConstructionModel, cells: RouteCells, paths: Seq<NetPathWitness>) -> bool {
    &&& paths.len() == c.nets.len()
    &&& forall|k: int| 0 <= k < paths.len() ==> is_path_witness(c, cells, k, #[trigger] paths[k])
}

/// The names of the tiles of cells.
pub open spec fn tile_names(list: Seq<RoutedCell>) -> Seq<Seq<char>> {
    Seq::new(list.len(), |i: int| list[i].spec_name@)
}

/// How often each tile is used.
pub open spec fn is_usage(usage: Map<Seq<char>, usize>, names: Seq<Seq<char>>) -> bool {
    &&& forall|name: Seq<char>| #[trigger] usage.contains_key(name) == names.contains(name)
    &&& forall|name: Seq<char>| #[trigger] usage.contains_key(name) ==> usage[name] == tally::occurrences(names, name)
}

/// A routing of the construction.
pub open spec fn is_witness(
    c: ConstructionModel,
    cells: RouteCells,
    pieces: Map<Place, Seq<char>>,
    across: Seq<Names>,
    down: Seq<Names>,
    witness: RoutingWitness,
) -> bool {
    &&& is_bounds(witness.bounds, pieces.dom())
    &&& lists_pieces(witness.pieces@, pieces)
    &&& lists_cells(witness.route_cells@, cells)
    &&& cellmap::lists_set(cellmap::ordered(seam(c, cells, RouteDir::E)), seam(c, cells, RouteDir::E))
    &&& cellmap::lists_set(cellmap::ordered(seam(c, cells, RouteDir::S)), seam(c, cells, RouteDir::S))
    &&& lists_across(witness.horizontal_interfaces@, cellmap::ordered(seam(c, cells, RouteDir::E)), across)
    &&& lists_down(witness.vertical_interfaces@, cellmap::ordered(seam(c, cells, RouteDir::S)), down)
    &&& are_horizontal_families(witness.horizontal_families@, across)
    &&& are_vertical_families(witness.vertical_families@, down)
    &&& are_path_witnesses(c, cells, witness.net_paths@)
    &&& witness.primitive_usage.wf()
    &&& is_usage(witness.primitive_usage@, tile_names(witness.route_cells@))
}

/// A result is the failure.
pub open spec fn fails(result: Result<RoutingWitness, RoutingError>, failure: RoutingFailure) -> bool {
    result matches Err(error) && error@ == failure
}

/// The result of routing a construction.
pub open spec fn is_routing_result(
    c: ConstructionModel,
    files: &PatternFiles,
    result: Result<RoutingWitness, RoutingError>,
) -> bool {
    match routed(c, c.nets.len()) {
        Err(failure) => fails(result, failure),
        Ok(cells) => match instance_pieces(c, c.instances.len()) {
            Err(failure) => fails(result, failure),
            Ok(fixed) => if some_untiled(cells) {
                result matches Err(RoutingError::NoTile { dirs }) && exists|p: Place| #[trigger]
                    is_first_untiled(cells, p) && dirs == cells[p]
            } else {
                let pieces = all_pieces(cells, fixed);
                let wide = cellmap::ordered(seam(c, cells, RouteDir::E));
                let high = cellmap::ordered(seam(c, cells, RouteDir::S));
                match all_across(files, pieces, wide, wide.len()) {
                    Err(failure) => fails(result, failure),
                    Ok(across) => match all_down(pieces, high, high.len()) {
                        Err(failure) => fails(result, failure),
                        Ok(down) => if pieces.dom().is_empty() {
                            fails(result, RoutingFailure::NoPieces)
                        } else {
                            result matches Ok(witness) && is_witness(c, cells, pieces, across, down, witness)
                        },
                    },
                }
            },
        },
    }
}

pub(crate) proof fn lemma_pieces_fail(c: ConstructionModel, j: nat, k: nat)
    requires
        j <= k,
        instance_pieces(c, j) is Err,
    ensures
        instance_pieces(c, k) == instance_pieces(c, j),
    decreases k,
{
    if j < k {
        lemma_pieces_fail(c, j, (k - 1) as nat);
    }
}

/// The patterns of the instances, where they stand.
pub(crate) fn place_instances(lanes: &Lanes) -> (result: Result<PlaceMap<&'static str>, RoutingError>)
    requires
        lanes.wf(),
    ensures
        match instance_pieces(lanes.construction@, lanes.construction@.instances.len()) {
            Ok(pieces) => result matches Ok(found) && piece_texts(found@) == pieces,
            Err(failure) => result matches Err(error) && error@ == failure,
        },
{
    let ghost c = lanes.construction@;
    let mut pieces: PlaceMap<&'static str> = PlaceMap::new();
    let mut k: usize = 0;
    assert(piece_texts(pieces@) =~= Map::<Place, Seq<char>>::empty());
    while k < lanes.construction.instances.len()
        invariant
            k <= lanes.construction.instances@.len(),
            c == lanes.construction@,
            lanes.wf(),
            instance_pieces(c, k as nat) == Ok::<Map<Place, Seq<char>>, RoutingFailure>(piece_texts(pieces@)),
        decreases lanes.construction.instances.len() - k,
    {
        let instance: &MacroInstance = &lanes.construction.instances[k];
        assert(c.instances[k as int] == instance@);
        match instance.kind.published_spec_name() {
            Some(name) => {
                let ghost before = pieces@;
                pieces.insert(lanes.position(instance.id.0), name);
                assert(piece_texts(pieces@) =~= piece_texts(before).insert(
                    lanes::position(c, instance@.id),
                    name@,
                ));
            },
            None => {
                proof {
                    lemma_pieces_fail(c, (k + 1) as nat, c.instances.len());
                }
                return Err(RoutingError::NoPattern { kind: instance.kind.clone() });
            },
        }
        k += 1;
    }
    Ok(pieces)
}

/// The cells with their tiles, in the order of their places.
pub(crate) fn tile_cells(cells: &PlaceMap<RouteDirs>) -> (result: Result<Vec<RoutedCell>, RoutingError>)
    ensures
        match result {
            Ok(list) => !some_untiled(cells@) && lists_cells(list@, cells@),
            Err(error) => some_untiled(cells@) && (error matches RoutingError::NoTile { dirs } && exists|p: Place|
             #[trigger]
                is_first_untiled(cells@, p) && dirs == cells@[p]),
        },
{
    let entries: Vec<((i32, i32), RouteDirs)> = cells.entries();
    let ghost order = cellmap::ordered(cells@.dom());
    proof {
        cellmap::lemma_entries_ordered(entries@, cells@);
    }
    let mut list: Vec<RoutedCell> = Vec::new();
    let mut k: usize = 0;
    while k < entries.len()
        invariant
            k <= entries@.len(),
            cellmap::lists_map(entries@, cells@),
            order == cellmap::ordered(cells@.dom()),
            order == cellmap::entry_places(entries@),
            list@.len() == k,
            forall|i: int|
                0 <= i < k ==> cellmap::place_of((#[trigger] list@[i]).coord) == order[i] && cells@.contains_key(order[i])
                    && list@[i].dirs == cells@[order[i]] && tile_of(cells@[order[i]]) == Some(list@[i].spec_name@),
        decreases entries.len() - k,
    {
        let (coord, dirs): ((i32, i32), RouteDirs) = entries[k];
        assert(cells@.contains_key(cellmap::place_of(entries@[k as int].0)));
        match routing_spec_for_dirs(dirs) {
            Some(spec_name) => {
                list.push(RoutedCell { coord, spec_name, dirs });
            },
            None => {
                proof {
                    let place = cellmap::place_of(coord);
                    assert forall|p: Place| #[trigger] cells@.contains_key(p) && cellmap::place_less(p, place) implies tile_of(
                        cells@[p],
                    ) is Some by {
                        let i = choose|i: int|
                            0 <= i < entries@.len() && cellmap::place_of((#[trigger] entries@[i]).0) == p;
                        if i > k {
                            assert(cellmap::place_less(
                                cellmap::place_of(entries@[k as int].0),
                                cellmap::place_of(entries@[i].0),
                            ));
                        }
                        assert(order[i] == p);
                        assert(list@[i].dirs == cells@[order[i]]);
                    }
                    assert(is_first_untiled(cells@, place));
                }
                return Err(RoutingError::NoTile { dirs });
            },
        }
        k += 1;
    }
    proof {
        assert forall|p: Place| #[trigger] cells@.contains_key(p) implies tile_of(cells@[p]) is Some by {
            let i = choose|i: int| 0 <= i < entries@.len() && cellmap::place_of((#[trigger] entries@[i]).0) == p;
            assert(order[i] == p);
            assert(list@[i].dirs == cells@[order[i]]);
        }
    }
    Ok(list)
}

/// Adds the tiles of cells where no instance stands.
fn add_tiles(pieces: &mut PlaceMap<&'static str>, list: &Vec<RoutedCell>, cells: &PlaceMap<RouteDirs>)
    requires
        lists_cells(list@, cells@),
    ensures
        piece_texts(final(pieces)@) == all_pieces(cells@, piece_texts(old(pieces)@)),
{
    let ghost before = pieces@;
    let ghost order = cellmap::ordered(cells@.dom());
    let entries: Vec<((i32, i32), RouteDirs)> = cells.entries();
    proof {
        cellmap::lemma_entries_ordered(entries@, cells@);
    }
    let mut k: usize = 0;
    while k < list.len()
        invariant
            k <= list@.len(),
            before == old(pieces)@,
            order == cellmap::ordered(cells@.dom()),
            order == cellmap::entry_places(entries@),
            cellmap::lists_map(entries@, cells@),
            lists_cells(list@, cells@),
            forall|p: Place| #[trigger]
                pieces@.contains_key(p) <==> before.contains_key(p) || order.take(k as int).contains(p),
            forall|p: Place| #[trigger] before.contains_key(p) ==> pieces@[p] == before[p],
            forall|p: Place| #[trigger]
                pieces@.contains_key(p) && !before.contains_key(p) ==> tile_of(cells@[p]) == Some(pieces@[p]@),
        decreases list.len() - k,
    {
        assert(cellmap::place_of(list@[k as int].coord) == order[k as int]);
        let ghost earlier = pieces@;
        let ghost here = order[k as int];
        if pieces.get(list[k].coord).is_none() {
            pieces.insert(list[k].coord, list[k].spec_name);
        }
        proof {
            assert forall|p: Place| #[trigger]
                pieces@.contains_key(p) <==> before.contains_key(p) || order.take(k + 1).contains(p) by {
                crate::seqs::lemma_take_contains(order, k as int, p);
                assert(earlier.contains_key(p) <==> before.contains_key(p) || order.take(k as int).contains(p));
            }
            assert forall|p: Place| #[trigger]
                pieces@.contains_key(p) && !before.contains_key(p) implies tile_of(cells@[p]) == Some(pieces@[p]@) by {
                if earlier.contains_key(p) {
                    assert(pieces@[p] == earlier[p]);
                }
            }
            assert forall|p: Place| #[trigger] before.contains_key(p) implies pieces@[p] == before[p] by {
                assert(earlier.contains_key(p));
            }
        }
        k += 1;
    }
    proof {
        assert(order.take(k as int) =~= order);
        assert forall|p: Place| #[trigger] order.contains(p) == cells@.contains_key(p) by {
            if cells@.contains_key(p) {
                let i = choose|i: int| 0 <= i < entries@.len() && cellmap::place_of((#[trigger] entries@[i]).0) == p;
                assert(order[i] == p);
            }
            if order.contains(p) {
                let i = choose|i: int| 0 <= i < order.len() && order[i] == p;
                assert(cells@.contains_key(cellmap::place_of(entries@[i].0)));
            }
        }
        let wanted = all_pieces(cells@, piece_texts(before));
        assert forall|p: Place| #[trigger] pieces@.contains_key(p) == wanted.contains_key(p) by {}
        assert(piece_texts(pieces@) =~= wanted);
    }
}

/// The neighbouring place, where the board has one.
fn neighbour(place: (i32, i32), dir: RouteDir) -> (next: Option<(i32, i32)>)
    ensures
        match next {
            Some(found) => cellmap::place_of(found) == lanes::moved(cellmap::place_of(place), dir),
            None => {
                let wanted = lanes::moved(cellmap::place_of(place), dir);
                wanted.0 < i32::MIN || wanted.0 > i32::MAX || wanted.1 < i32::MIN || wanted.1 > i32::MAX
            },
        },
{
    match dir {
        RouteDir::N => if place.1 > i32::MIN {
            Some((place.0, place.1 - 1))
        } else {
            None
        },
        RouteDir::E => if place.0 < i32::MAX {
            Some((place.0 + 1, place.1))
        } else {
            None
        },
        RouteDir::S => if place.1 < i32::MAX {
            Some((place.0, place.1 + 1))
        } else {
            None
        },
        RouteDir::W => if place.0 > i32::MIN {
            Some((place.0 - 1, place.1))
        } else {
            None
        },
    }
}

/// Marks the place at which an end of a net is joined to its neighbour.
fn mark_link(lanes: &Lanes, marks: &mut PlaceMap<bool>, end: &Endpoint, dir: RouteDir)
    requires
        lanes.wf(),
    ensures
        forall|p: Place| #[trigger]
            final(marks)@.contains_key(p) <==> old(marks)@.contains_key(p) || linked(
                lanes.construction@,
                end@,
                p,
                dir,
            ),
{
    match end {
        Endpoint::ExternalInput { .. } => {},
        Endpoint::InstancePort(port) => match lanes.instance_endpoint_stub(end) {
            Err(_) => {},
            Ok(stub) => if stub.back_dir == dir.opposite() {
                marks.insert(lanes.position(port.instance.0), true);
            } else if stub.back_dir == dir {
                marks.insert(stub.coord, true);
            },
        },
    }
}

/// The places that are joined to their neighbours in a direction.
pub(crate) fn seam_places(lanes: &Lanes, cells: &PlaceMap<RouteDirs>, dir: RouteDir) -> (list: Vec<(i32, i32)>)
    requires
        lanes.wf(),
    ensures
        lanes::places(list@) == cellmap::ordered(seam(lanes.construction@, cells@, dir)),
        cellmap::lists_set(lanes::places(list@), seam(lanes.construction@, cells@, dir)),
        forall|p: Place| #[trigger]
            lanes::places(list@).contains(p) <==> seam(lanes.construction@, cells@, dir).contains(p),
{
    let ghost c = lanes.construction@;
    let mut marks: PlaceMap<bool> = PlaceMap::new();
    let entries: Vec<((i32, i32), RouteDirs)> = cells.entries();
    let mut k: usize = 0;
    while k < entries.len()
        invariant
            k <= entries@.len(),
            cellmap::lists_map(entries@, cells@),
            forall|p: Place| #[trigger]
                marks@.contains_key(p) <==> joined(cells@, p, dir) && cellmap::entry_places(entries@.take(k as int)).contains(p),
        decreases entries.len() - k,
    {
        let (coord, dirs): ((i32, i32), RouteDirs) = entries[k];
        let ghost here = cellmap::place_of(coord);
        let ghost before = marks@;
        proof {
            assert(cells@.contains_key(cellmap::place_of(entries@[k as int].0)));
            cells.lemma_keys();
            assert forall|p: Place| #[trigger] cellmap::entry_places(entries@.take(k + 1)).contains(p) <==> (
            cellmap::entry_places(entries@.take(k as int)).contains(p) || p == here) by {
                let all = cellmap::entry_places(entries@);
                assert(cellmap::entry_places(entries@.take(k + 1)) =~= all.take(k + 1));
                assert(cellmap::entry_places(entries@.take(k as int)) =~= all.take(k as int));
                crate::seqs::lemma_take_contains(all, k as int, p);
            }
        }
        if dirs.contains(dir) {
            if let Some(next) = neighbour(coord, dir) {
                if let Some(other) = cells.get(next) {
                    if other.contains(dir.opposite()) {
                        marks.insert(coord, true);
                    }
                }
            }
        }
        proof {
            assert forall|p: Place| #[trigger]
                marks@.contains_key(p) <==> joined(cells@, p, dir) && cellmap::entry_places(entries@.take(k + 1)).contains(p) by {
                assert(before.contains_key(p) <==> joined(cells@, p, dir) && cellmap::entry_places(
                    entries@.take(k as int),
                ).contains(p));
            }
        }
        k += 1;
    }
    proof {
        assert(entries@.take(k as int) =~= entries@);
        assert forall|p: Place| #[trigger] marks@.contains_key(p) <==> joined(cells@, p, dir) by {
            if joined(cells@, p, dir) {
                let i = choose|i: int| 0 <= i < entries@.len() && cellmap::place_of((#[trigger] entries@[i]).0) == p;
                assert(cellmap::entry_places(entries@)[i] == p);
            }
        }
    }
    let mut m: usize = 0;
    while m < lanes.construction.nets.len()
        invariant
            m <= lanes.construction.nets@.len(),
            c == lanes.construction@,
            lanes.wf(),
            forall|p: Place| #[trigger]
                marks@.contains_key(p) <==> joined(cells@, p, dir) || some_link(c, m as nat, p, dir),
        decreases lanes.construction.nets.len() - m,
    {
        let ghost before = marks@;
        assert(c.nets[m as int] == lanes.construction.nets@[m as int]@);
        mark_link(lanes, &mut marks, &lanes.construction.nets[m].to, dir);
        let ghost middle = marks@;
        mark_link(lanes, &mut marks, &lanes.construction.nets[m].from, dir);
        proof {
            assert forall|p: Place| #[trigger]
                marks@.contains_key(p) <==> joined(cells@, p, dir) || some_link(c, (m + 1) as nat, p, dir) by {
                assert(middle.contains_key(p) <==> before.contains_key(p) || linked(c, c.nets[m as int].to, p, dir));
                assert(before.contains_key(p) <==> joined(cells@, p, dir) || some_link(c, m as nat, p, dir));
                if some_link(c, (m + 1) as nat, p, dir) && !some_link(c, m as nat, p, dir) {
                    let i = choose|i: int| #![trigger c.nets[i]]
                        0 <= i < m + 1 && (linked(c, c.nets[i].to, p, dir) || linked(c, c.nets[i].from, p, dir));
                    assert(i == m);
                }
            }
        }
        m += 1;
    }
    let marked: Vec<((i32, i32), bool)> = marks.entries();
    proof {
        assert(marks@.dom() =~= seam(c, cells@, dir));
        cellmap::lemma_entries_ordered(marked@, marks@);
    }
    let mut list: Vec<(i32, i32)> = Vec::new();
    let mut n: usize = 0;
    while n < marked.len()
        invariant
            n <= marked@.len(),
            lanes::places(list@) == cellmap::entry_places(marked@).take(n as int),
        decreases marked.len() - n,
    {
        let ghost before = list@;
        list.push(marked[n].0);
        assert(lanes::places(list@) =~= lanes::places(before).push(cellmap::place_of(marked@[n as int].0)));
        assert(cellmap::entry_places(marked@).take(n + 1) =~= cellmap::entry_places(marked@).take(n as int).push(
            cellmap::place_of(marked@[n as int].0),
        ));
        n += 1;
    }
    proof {
        assert(cellmap::entry_places(marked@).take(n as int) =~= cellmap::entry_places(marked@));
        assert forall|p: Place| #[trigger]
            lanes::places(list@).contains(p) <==> seam(c, cells@, dir).contains(p) by {
            let all = cellmap::entry_places(marked@);
            if all.contains(p) {
                let i = choose|i: int| 0 <= i < all.len() && all[i] == p;
                assert(marks@.contains_key(cellmap::place_of(marked@[i].0)));
            }
            if marks@.contains_key(p) {
                let i = choose|i: int| 0 <= i < marked@.len() && cellmap::place_of((#[trigger] marked@[i]).0) == p;
                assert(all[i] == p);
            }
        }
    }
    list
}

/// The phases of the wires of a pattern.
pub(crate) fn alignment_for_spec(files: &PatternFiles, spec_name: &'static str) -> (result: Result<
    Alignment,
    RoutingError,
>)
    requires
        files.wf(),
    ensures
        match stated_alignment(files, spec_name@) {
            Ok(align) => result == Ok::<Alignment, RoutingError>(align),
            Err(failure) => result matches Err(error) && error@ == failure,
        },
{
    let spec: PublishedSpec = match published_spec_named(spec_name) {
        Some(spec) => spec,
        None => {
            return Err(RoutingError::UnknownSpec { name: spec_name });
        },
    };
    match spec.align {
        Some(align) => Ok(align),
        None => match PublishedPattern::from_csv_file(files, spec.path) {
            Ok(pattern) => Ok(pattern.phase_alignment()),
            Err(_) => Err(RoutingError::UnreadablePattern { name: spec_name }),
        },
    }
}

/// The phase of a pattern's wire in a direction.
fn phase_for_spec_wire(files: &PatternFiles, spec_name: &'static str, dir: RouteDir) -> (result: Result<
    i8,
    RoutingError,
>)
    requires
        files.wf(),
    ensures
        match wire_phase(files, spec_name@, dir) {
            Ok(phase) => result == Ok::<i8, RoutingError>(phase),
            Err(failure) => result matches Err(error) && error@ == failure,
        },
{
    let align: Alignment = match alignment_for_spec(files, spec_name) {
        Ok(align) => align,
        Err(error) => {
            return Err(error);
        },
    };
    let phase: Option<i8> = match dir {
        RouteDir::E => align.0,
        RouteDir::N => align.1,
        RouteDir::W => align.2,
        RouteDir::S => align.3,
    };
    match phase {
        Some(phase) => Ok(phase),
        None => Err(RoutingError::MissingPhase { name: spec_name, dir }),
    }
}

/// The connector that joins two phases.
pub(crate) fn connector_joining(west: i8, east: i8) -> (name: Option<&'static str>)
    ensures
        match name {
            Some(text) => connector_for(west, east) == Some(text@),
            None => connector_for(west, east) is None,
        },
{
    let specs: Vec<PublishedSpec> = published_connector_specs();
    let mut name: Option<&'static str> = None;
    let mut k: usize = 0;
    while k < specs.len()
        invariant
            k <= specs@.len(),
            library::spec_models(specs@) == library::connector_table(),
            match name {
                Some(text) => connector_among(k as nat, west, east) == Some(text@),
                None => connector_among(k as nat, west, east) is None,
            },
        decreases specs.len() - k,
    {
        assert(library::connector_table()[k as int] == specs@[k as int]@);
        if let Some(align) = specs[k].align {
            if let (Some(w), Some(e)) = (align.2, align.0) {
                if w == west && e == east {
                    name = Some(specs[k].name);
                }
            }
        }
        k += 1;
    }
    name
}

/// The connector between two pieces.
fn connector_name(files: &PatternFiles, left: &'static str, right: &'static str) -> (result: Result<
    &'static str,
    RoutingError,
>)
    requires
        files.wf(),
    ensures
        match connector_between(files, left@, right@) {
            Ok(name) => result matches Ok(found) && found@ == name,
            Err(failure) => result matches Err(error) && error@ == failure,
        },
{
    let west: i8 = match phase_for_spec_wire(files, left, RouteDir::E) {
        Ok(phase) => phase,
        Err(error) => {
            return Err(error);
        },
    };
    let east: i8 = match phase_for_spec_wire(files, right, RouteDir::W) {
        Ok(phase) => phase,
        Err(error) => {
            return Err(error);
        },
    };
    match connector_joining(west, east) {
        Some(name) => Ok(name),
        None => Err(RoutingError::MissingConnector { left, left_phase: west, right, right_phase: east }),
    }
}

proof fn lemma_across_fails(
    files: &PatternFiles,
    pieces: Map<Place, Seq<char>>,
    order: Seq<Place>,
    j: nat,
    k: nat,
)
    requires
        j <= k,
        all_across(files, pieces, order, j) is Err,
    ensures
        all_across(files, pieces, order, k) == all_across(files, pieces, order, j),
    decreases k,
{
    if j < k {
        lemma_across_fails(files, pieces, order, j, (k - 1) as nat);
    }
}

proof fn lemma_down_fails(pieces: Map<Place, Seq<char>>, order: Seq<Place>, j: nat, k: nat)
    requires
        j <= k,
        all_down(pieces, order, j) is Err,
    ensures
        all_down(pieces, order, k) == all_down(pieces, order, j),
    decreases k,
{
    if j < k {
        lemma_down_fails(pieces, order, j, (k - 1) as nat);
    }
}

/// The neighbours of the places fit on the board.
pub open spec fn neighbours_fit(order: Seq<Place>, dir: RouteDir) -> bool {
    forall|p: Place| #[trigger]
        order.contains(p) ==> lanes::moved(p, dir).0 <= i32::MAX && lanes::moved(p, dir).1 <= i32::MAX
}

/// The neighbours of joined places fit on the board.
pub(crate) proof fn lemma_neighbours_fit(
    c: ConstructionModel,
    cells: &PlaceMap<RouteDirs>,
    order: Seq<Place>,
    dir: RouteDir,
)
    requires
        lanes::board_fits(c),
        dir == RouteDir::E || dir == RouteDir::S,
        forall|p: Place| #[trigger] order.contains(p) <==> seam(c, cells@, dir).contains(p),
    ensures
        neighbours_fit(order, dir),
{
    cells.lemma_keys();
    assert forall|p: Place| #[trigger] order.contains(p) implies lanes::moved(p, dir).0 <= i32::MAX && lanes::moved(
        p,
        dir,
    ).1 <= i32::MAX by {
        assert(seam(c, cells@, dir).contains(p));
        if some_link(c, c.nets.len(), p, dir) {
            let i = choose|i: int| #![trigger c.nets[i]]
                0 <= i < c.nets.len() && (linked(c, c.nets[i].to, p, dir) || linked(c, c.nets[i].from, p, dir));
            if linked(c, c.nets[i].to, p, dir) {
                lanes::lemma_position_inside(c, c.instances.len(), c.nets[i].to->Port_0);
            } else {
                lanes::lemma_position_inside(c, c.instances.len(), c.nets[i].from->Port_0);
            }
        }
    }
}

/// The interfaces at places, from west to east.
fn horizontal_interfaces(
    files: &PatternFiles,
    pieces: &PlaceMap<&'static str>,
    order: &Vec<(i32, i32)>,
) -> (result: Result<Vec<HorizontalInterface>, RoutingError>)
    requires
        files.wf(),
        neighbours_fit(lanes::places(order@), RouteDir::E),
    ensures
        match all_across(files, piece_texts(pieces@), lanes::places(order@), order@.len()) {
            Ok(names) => result matches Ok(list) && lists_across(list@, lanes::places(order@), names),
            Err(failure) => result matches Err(error) && error@ == failure,
        },
{
    let ghost texts = piece_texts(pieces@);
    let ghost way = lanes::places(order@);
    let mut list: Vec<HorizontalInterface> = Vec::new();
    let ghost mut names: Seq<Names> = Seq::empty();
    let mut k: usize = 0;
    while k < order.len()
        invariant
            k <= order@.len(),
            files.wf(),
            texts == piece_texts(pieces@),
            way == lanes::places(order@),
            neighbours_fit(way, RouteDir::E),
            all_across(files, texts, way, k as nat) == Ok::<Seq<Names>, RoutingFailure>(names),
            lists_across(list@, way.take(k as int), names),
        decreases order.len() - k,
    {
        let left: (i32, i32) = order[k];
        assert(way[k as int] == cellmap::place_of(left));
        assert(way.contains(way[k as int]));
        let right: (i32, i32) = (left.0 + 1, left.1);
        proof {
            if across(files, texts, way[k as int]) is Err {
                lemma_across_fails(files, texts, way, (k + 1) as nat, way.len());
            }
        }
        let left_spec_name: &'static str = match pieces.get(left) {
            Some(name) => name,
            None => {
                return Err(RoutingError::MissingPiece { side: "left", place: left });
            },
        };
        let right_spec_name: &'static str = match pieces.get(right) {
            Some(name) => name,
            None => {
                return Err(RoutingError::MissingPiece { side: "right", place: right });
            },
        };
        match connector_name(files, left_spec_name, right_spec_name) {
            Ok(connector_spec_name) => {
                list.push(
                    HorizontalInterface { left, right, left_spec_name, connector_spec_name, right_spec_name },
                );
                proof {
                    let found = seq![left_spec_name@, connector_spec_name@, right_spec_name@];
                    assert(across(files, texts, way[k as int]) == Ok::<Names, RoutingFailure>(found));
                    names = names.push(found);
                    assert(way.take(k + 1) =~= way.take(k as int).push(way[k as int]));
                }
            },
            Err(error) => {
                return Err(error);
            },
        }
        k += 1;
    }
    assert(way.take(k as int) =~= way);
    Ok(list)
}

/// The interfaces at places, from north to south.
fn vertical_interfaces(pieces: &PlaceMap<&'static str>, order: &Vec<(i32, i32)>) -> (result: Result<
    Vec<VerticalInterface>,
    RoutingError,
>)
    requires
        neighbours_fit(lanes::places(order@), RouteDir::S),
    ensures
        match all_down(piece_texts(pieces@), lanes::places(order@), order@.len()) {
            Ok(names) => result matches Ok(list) && lists_down(list@, lanes::places(order@), names),
            Err(failure) => result matches Err(error) && error@ == failure,
        },
{
    let ghost texts = piece_texts(pieces@);
    let ghost way = lanes::places(order@);
    let mut list: Vec<VerticalInterface> = Vec::new();
    let ghost mut names: Seq<Names> = Seq::empty();
    let mut k: usize = 0;
    while k < order.len()
        invariant
            k <= order@.len(),
            texts == piece_texts(pieces@),
            way == lanes::places(order@),
            neighbours_fit(way, RouteDir::S),
            all_down(texts, way, k as nat) == Ok::<Seq<Names>, RoutingFailure>(names),
            lists_down(list@, way.take(k as int), names),
        decreases order.len() - k,
    {
        let top: (i32, i32) = order[k];
        assert(way[k as int] == cellmap::place_of(top));
        assert(way.contains(way[k as int]));
        let bottom: (i32, i32) = (top.0, top.1 + 1);
        proof {
            if down(texts, way[k as int]) is Err {
                lemma_down_fails(texts, way, (k + 1) as nat, way.len());
            }
        }
        let top_spec_name: &'static str = match pieces.get(top) {
            Some(name) => name,
            None => {
                return Err(RoutingError::MissingPiece { side: "top", place: top });
            },
        };
        let bottom_spec_name: &'static str = match pieces.get(bottom) {
            Some(name) => name,
            None => {
                return Err(RoutingError::MissingPiece { side: "bottom", place: bottom });
            },
        };
        list.push(VerticalInterface { top, bottom, top_spec_name, bottom_spec_name });
        proof {
            let found = seq![top_spec_name@, bottom_spec_name@];
            assert(down(texts, way[k as int]) == Ok::<Names, RoutingFailure>(found));
            names = names.push(found);
            assert(way.take(k + 1) =~= way.take(k as int).push(way[k as int]));
        }
        k += 1;
    }
    assert(way.take(k as int) =~= way);
    Ok(list)
}

/// The families of interfaces, with how often they occur.
pub(crate) fn count_horizontal_families(interfaces: &Vec<HorizontalInterface>, names: Ghost<Seq<Names>>) -> (families: Vec<
    HorizontalInterfaceFamily,
>)
    requires
        interfaces@.len() == names@.len(),
        forall|i: int| 0 <= i < interfaces@.len() ==> horizontal_names(#[trigger] interfaces@[i]) == names@[i],
    ensures
        are_horizontal_families(families@, names@),
{
    let ghost all = names@;
    let mut rows: Vec<Tally> = Vec::new();
    let mut k: usize = 0;
    assert(tally::is_tally(rows@, all.take(0)));
    while k < interfaces.len()
        invariant
            k <= interfaces@.len(),
            interfaces@.len() == all.len(),
            forall|i: int| 0 <= i < interfaces@.len() ==> horizontal_names(#[trigger] interfaces@[i]) == all[i],
            tally::is_tally(rows@, all.take(k as int)),
            forall|i: int| 0 <= i < rows@.len() ==> (#[trigger] rows@[i]).names@.len() == 3,
        decreases interfaces.len() - k,
    {
        let item: HorizontalInterface = interfaces[k];
        let mut key: Vec<&'static str> = Vec::new();
        key.push(item.left_spec_name);
        key.push(item.connector_spec_name);
        key.push(item.right_spec_name);
        assert(tally::names_of(key@) =~= all[k as int]) by {
            assert(horizontal_names(interfaces@[k as int]) == all[k as int]);
        }
        add_names(&mut rows, key, Ghost(all.take(k as int)));
        assert(all.take(k + 1) =~= all.take(k as int).push(all[k as int]));
        proof {
            let shown = all.take(k + 1);
            assert forall|i: int| 0 <= i < shown.len() implies (#[trigger] shown[i]).len() == 3 by {
                assert(horizontal_names(interfaces@[i]) == all[i]);
            }
            lemma_tally_lengths(rows@, shown, 3);
        }
        k += 1;
    }
    assert(all.take(k as int) =~= all);
    let mut families: Vec<HorizontalInterfaceFamily> = Vec::new();
    let mut m: usize = 0;
    while m < rows.len()
        invariant
            m <= rows@.len(),
            families@.len() == m,
            forall|i: int| 0 <= i < rows@.len() ==> (#[trigger] rows@[i]).names@.len() == 3,
            forall|i: int|
                0 <= i < m ==> horizontal_family_names(#[trigger] families@[i]) == tally::names_of(rows@[i].names@)
                    && families@[i].count == rows@[i].count,
        decreases rows.len() - m,
    {
        let row: &Tally = &rows[m];
        assert(rows@[m as int].names@.len() == 3);
        families.push(
            HorizontalInterfaceFamily {
                left_spec_name: row.names[0],
                connector_spec_name: row.names[1],
                right_spec_name: row.names[2],
                count: row.count,
            },
        );
        assert(horizontal_family_names(families@[m as int]) =~= tally::names_of(rows@[m as int].names@));
        m += 1;
    }
    proof {
        assert forall|i: int, j: int| #![trigger families@[i], families@[j]] 0 <= i < j < families@.len() implies tally::names_less(
            horizontal_family_names(families@[i]),
            horizontal_family_names(families@[j]),
        ) by {
            assert(tally::names_less(tally::names_of(rows@[i].names@), tally::names_of(rows@[j].names@)));
        }
        assert forall|i: int| 0 <= i < families@.len() implies (#[trigger] families@[i]).count == tally::occurrences(
            all,
            horizontal_family_names(families@[i]),
        ) && families@[i].count > 0 by {
            assert(rows@[i].count > 0);
        }
        assert forall|key: Names| #[trigger] all.contains(key) implies exists|i: int|
            0 <= i < families@.len() && horizontal_family_names(#[trigger] families@[i]) == key by {
            let i = choose|i: int| 0 <= i < rows@.len() && tally::names_of((#[trigger] rows@[i]).names@) == key;
            assert(horizontal_family_names(families@[i]) == key);
        }
    }
    families
}

/// The families of interfaces, with how often they occur.
pub(crate) fn count_vertical_families(interfaces: &Vec<VerticalInterface>, names: Ghost<Seq<Names>>) -> (families: Vec<
    VerticalInterfaceFamily,
>)
    requires
        interfaces@.len() == names@.len(),
        forall|i: int| 0 <= i < interfaces@.len() ==> vertical_names(#[trigger] interfaces@[i]) == names@[i],
    ensures
        are_vertical_families(families@, names@),
{
    let ghost all = names@;
    let mut rows: Vec<Tally> = Vec::new();
    let mut k: usize = 0;
    assert(tally::is_tally(rows@, all.take(0)));
    while k < interfaces.len()
        invariant
            k <= interfaces@.len(),
            interfaces@.len() == all.len(),
            forall|i: int| 0 <= i < interfaces@.len() ==> vertical_names(#[trigger] interfaces@[i]) == all[i],
            tally::is_tally(rows@, all.take(k as int)),
            forall|i: int| 0 <= i < rows@.len() ==> (#[trigger] rows@[i]).names@.len() == 2,
        decreases interfaces.len() - k,
    {
        let item: VerticalInterface = interfaces[k];
        let mut key: Vec<&'static str> = Vec::new();
        key.push(item.top_spec_name);
        key.push(item.bottom_spec_name);
        assert(tally::names_of(key@) =~= all[k as int]) by {
            assert(vertical_names(interfaces@[k as int]) == all[k as int]);
        }
        add_names(&mut rows, key, Ghost(all.take(k as int)));
        assert(all.take(k + 1) =~= all.take(k as int).push(all[k as int]));
        proof {
            let shown = all.take(k + 1);
            assert forall|i: int| 0 <= i < shown.len() implies (#[trigger] shown[i]).len() == 2 by {
                assert(vertical_names(interfaces@[i]) == all[i]);
            }
            lemma_tally_lengths(rows@, shown, 2);
        }
        k += 1;
    }
    assert(all.take(k as int) =~= all);
    let mut families: Vec<VerticalInterfaceFamily> = Vec::new();
    let mut m: usize = 0;
    while m < rows.len()
        invariant
            m <= rows@.len(),
            families@.len() == m,
            forall|i: int| 0 <= i < rows@.len() ==> (#[trigger] rows@[i]).names@.len() == 2,
            forall|i: int|
                0 <= i < m ==> vertical_family_names(#[trigger] families@[i]) == tally::names_of(rows@[i].names@)
                    && families@[i].count == rows@[i].count,
        decreases rows.len() - m,
    {
        let row: &Tally = &rows[m];
        assert(rows@[m as int].names@.len() == 2);
        families.push(
            VerticalInterfaceFamily {
                top_spec_name: row.names[0],
                bottom_spec_name: row.names[1],
                count: row.count,
            },
        );
        assert(vertical_family_names(families@[m as int]) =~= tally::names_of(rows@[m as int].names@));
        m += 1;
    }
    proof {
        assert forall|i: int, j: int| #![trigger families@[i], families@[j]] 0 <= i < j < families@.len() implies tally::names_less(
            vertical_family_names(families@[i]),
            vertical_family_names(families@[j]),
        ) by {
            assert(tally::names_less(tally::names_of(rows@[i].names@), tally::names_of(rows@[j].names@)));
        }
        assert forall|i: int| 0 <= i < families@.len() implies (#[trigger] families@[i]).count == tally::occurrences(
            all,
            vertical_family_names(families@[i]),
        ) && families@[i].count > 0 by {
            assert(rows@[i].count > 0);
        }
        assert forall|key: Names| #[trigger] all.contains(key) implies exists|i: int|
            0 <= i < families@.len() && vertical_family_names(#[trigger] families@[i]) == key by {
            let i = choose|i: int| 0 <= i < rows@.len() && tally::names_of((#[trigger] rows@[i]).names@) == key;
            assert(vertical_family_names(families@[i]) == key);
        }
    }
    families
}

/// Every counted list has the length of the lists that were counted.
pub proof fn lemma_tally_lengths(rows: Seq<Tally>, list: Seq<Names>, n: nat)
    requires
        tally::is_tally(rows, list),
        forall|i: int| 0 <= i < list.len() ==> (#[trigger] list[i]).len() == n,
    ensures
        forall|i: int| 0 <= i < rows.len() ==> (#[trigger] rows[i]).names@.len() == n,
{
    assert forall|i: int| 0 <= i < rows.len() implies (#[trigger] rows[i]).names@.len() == n by {
        let key = tally::names_of(rows[i].names@);
        tally::lemma_occurs(list, key);
        let j = choose|j: int| 0 <= j < list.len() && list[j] == key;
        assert(list[j].len() == n);
    }
}

/// How often a path changes its direction.
fn count_turns(path: &Vec<(i32, i32)>) -> (turns: usize)
    requires
        lanes::is_walk(lanes::places(path@)),
    ensures
        turns == turn_count(lanes::places(path@), path@.len()),
{
    let ghost way = lanes::places(path@);
    let mut turns: usize = 0;
    if path.len() < 2 {
        return turns;
    }
    let mut k: usize = 2;
    while k < path.len()
        invariant
            2 <= k <= path@.len(),
            way == lanes::places(path@),
            lanes::is_walk(way),
            turns <= k,
            turns == turn_count(way, k as nat),
        decreases path.len() - k,
    {
        assert(way[k - 2] == cellmap::place_of(path@[k - 2]) && way[k - 1] == cellmap::place_of(path@[k - 1])
            && way[k as int] == cellmap::place_of(path@[k as int]));
        assert(lanes::adjacent(way[k - 2], way[k - 1]));
        assert(lanes::adjacent(way[k - 1], way[k as int]));
        match (direction_between(path[k - 2], path[k - 1]), direction_between(path[k - 1], path[k])) {
            (Some(incoming), Some(outgoing)) => {
                if incoming != outgoing {
                    turns += 1;
                }
            },
            _ => {},
        }
        k += 1;
    }
    turns
}

/// How many cells of a path are crossings.
fn count_crossings(cells: &PlaceMap<RouteDirs>, path: &Vec<(i32, i32)>) -> (crossings: usize)
    ensures
        crossings == crossing_count(cells@, lanes::places(path@), path@.len()),
{
    let ghost way = lanes::places(path@);
    let mut crossings: usize = 0;
    let mut k: usize = 0;
    while k < path.len()
        invariant
            k <= path@.len(),
            way == lanes::places(path@),
            crossings <= k,
            crossings == crossing_count(cells@, way, k as nat),
        decreases path.len() - k,
    {
        assert(way[k as int] == cellmap::place_of(path@[k as int]));
        if let Some(dirs) = cells.get(path[k]) {
            if dirs.len() == 4 {
                crossings += 1;
            }
        }
        k += 1;
    }
    crossings
}

fn copy_cells(path: &Vec<(i32, i32)>) -> (copy: Vec<(i32, i32)>)
    ensures
        copy@ == path@,
{
    let mut copy: Vec<(i32, i32)> = Vec::new();
    let mut k: usize = 0;
    while k < path.len()
        invariant
            k <= path@.len(),
            copy@ == path@.take(k as int),
        decreases path.len() - k,
    {
        copy.push(path[k]);
        assert(path@.take(k + 1) =~= path@.take(k as int).push(path@[k as int]));
        k += 1;
    }
    assert(path@.take(k as int) =~= path@);
    copy
}

/// Every net of a routing leads to a port.
proof fn lemma_targets(c: ConstructionModel, j: nat, k: nat)
    requires
        j < k <= c.nets.len(),
        routed(c, k) is Ok,
    ensures
        c.nets[j as int].to is Port,
        lanes::stub_of(c, c.nets[j as int].to) is Ok,
        lanes::source_of(c, j) is Ok,
    decreases k,
{
    if j + 1 < k {
        lemma_targets(c, j, (k - 1) as nat);
    }
}

/// The paths of all nets, with their turns and their crossings.
fn finalize_net_paths(
    construction: &CompiledConstruction,
    cells: &PlaceMap<RouteDirs>,
    paths: &Vec<Vec<(i32, i32)>>,
) -> (list: Vec<NetPathWitness>)
    requires
        routed(construction@, construction@.nets.len()) is Ok,
        are_net_paths(construction@, paths@),
    ensures
        are_path_witnesses(construction@, cells@, list@),
{
    let ghost c = construction@;
    let mut list: Vec<NetPathWitness> = Vec::new();
    let mut k: usize = 0;
    while k < construction.nets.len()
        invariant
            k <= construction.nets@.len(),
            c == construction@,
            routed(c, c.nets.len()) is Ok,
            are_net_paths(c, paths@),
            list@.len() == k,
            forall|i: int| 0 <= i < k ==> is_path_witness(c, cells@, i, #[trigger] list@[i]),
        decreases construction.nets.len() - k,
    {
        assert(c.nets[k as int] == construction.nets@[k as int]@);
        proof {
            lemma_targets(c, k as nat, c.nets.len());
        }
        assert(lanes::places(paths@[k as int]@) == net_path(c, k as nat));
        assert(lanes::places(paths@[k as int]@).len() == paths@[k as int]@.len());
        if let Endpoint::InstancePort(to) = &construction.nets[k].to {
            list.push(
                NetPathWitness {
                    net_index: k,
                    from: construction.nets[k].from.clone(),
                    to: *to,
                    cells: copy_cells(&paths[k]),
                    turns: count_turns(&paths[k]),
                    crossings: count_crossings(cells, &paths[k]),
                },
            );
            assert(is_path_witness(c, cells@, k as int, list@[k as int]));
        }
        k += 1;
    }
    list
}

/// How often each tile is used.
fn count_tiles(list: &Vec<RoutedCell>) -> (usage: StrMap<usize>)
    ensures
        usage.wf(),
        is_usage(usage@, tile_names(list@)),
{
    let ghost names = tile_names(list@);
    let mut usage: StrMap<usize> = StrMap::new();
    let mut k: usize = 0;
    assert(is_usage(usage@, names.take(0)));
    while k < list.len()
        invariant
            k <= list@.len(),
            names == tile_names(list@),
            usage.wf(),
            is_usage(usage@, names.take(k as int)),
        decreases list.len() - k,
    {
        let name: &'static str = list[k].spec_name;
        let ghost shown = names.take(k as int);
        let ghost before = usage@;
        proof {
            tally::lemma_occurs(shown, name@);
            assert(names.take(k + 1) =~= shown.push(name@));
        }
        let count: usize = match usage.get(name) {
            Some(count) => *count,
            None => 0,
        };
        usage.insert(name.to_owned(), count + 1);
        proof {
            let more = names.take(k + 1);
            assert forall|n: Seq<char>| #[trigger] usage@.contains_key(n) == more.contains(n) by {
                crate::seqs::lemma_take_contains(names, k as int, n);
                assert(before.contains_key(n) == shown.contains(n));
            }
            assert forall|n: Seq<char>| #[trigger] usage@.contains_key(n) implies usage@[n] == tally::occurrences(
                more,
                n,
            ) by {
                tally::lemma_occurrences_push(shown, name@, n);
                if n != name@ {
                    assert(before.contains_key(n));
                }
            }
        }
        k += 1;
    }
    assert(names.take(k as int) =~= names);
    usage
}

/// The smallest rectangle around pieces.
fn compute_bounds(pieces: &Vec<((i32, i32), &'static str)>, map: Ghost<Map<Place, &'static str>>) -> (bounds: Option<
    RouteBounds,
>)
    requires
        cellmap::lists_map(pieces@, map@),
    ensures
        match bounds {
            Some(found) => is_bounds(found, map@.dom()) && pieces@.len() > 0,
            None => pieces@.len() == 0,
        },
{
    if pieces.len() == 0 {
        return None;
    }
    let ghost set = map@.dom();
    let first: (i32, i32) = pieces[0].0;
    let mut bounds: RouteBounds = RouteBounds { min_x: first.0, min_y: first.1, max_x: first.0, max_y: first.1 };
    let mut k: usize = 1;
    assert(set.contains(cellmap::place_of(pieces@[0].0)));
    while k < pieces.len()
        invariant
            1 <= k <= pieces@.len(),
            set == map@.dom(),
            cellmap::lists_map(pieces@, map@),
            forall|i: int|
                0 <= i < k ==> bounds.min_x <= (#[trigger] pieces@[i]).0.0 <= bounds.max_x && bounds.min_y
                    <= pieces@[i].0.1 <= bounds.max_y,
            exists|p: Place| #[trigger] set.contains(p) && p.0 == bounds.min_x,
            exists|p: Place| #[trigger] set.contains(p) && p.0 == bounds.max_x,
            exists|p: Place| #[trigger] set.contains(p) && p.1 == bounds.min_y,
            exists|p: Place| #[trigger] set.contains(p) && p.1 == bounds.max_y,
        decreases pieces.len() - k,
    {
        let place: (i32, i32) = pieces[k].0;
        assert(set.contains(cellmap::place_of(pieces@[k as int].0)));
        if place.0 < bounds.min_x {
            bounds.min_x = place.0;
        }
        if place.0 > bounds.max_x {
            bounds.max_x = place.0;
        }
        if place.1 < bounds.min_y {
            bounds.min_y = place.1;
        }
        if place.1 > bounds.max_y {
            bounds.max_y = place.1;
        }
        k += 1;
    }
    proof {
        assert forall|p: Place| #[trigger] set.contains(p) implies bounds.min_x <= p.0 <= bounds.max_x && bounds.min_y
            <= p.1 <= bounds.max_y by {
            assert(map@.contains_key(p));
            let i = choose|i: int| 0 <= i < pieces@.len() && cellmap::place_of((#[trigger] pieces@[i]).0) == p;
        }
    }
    Some(bounds)
}

/// The pieces, in the order of their places.
fn list_pieces(entries: &Vec<((i32, i32), &'static str)>, map: Ghost<Map<Place, &'static str>>) -> (list: Vec<
    RoutedPiece,
>)
    requires
        cellmap::lists_map(entries@, map@),
    ensures
        lists_pieces(list@, piece_texts(map@)),
{
    let ghost order = cellmap::ordered(map@.dom());
    proof {
        cellmap::lemma_entries_ordered(entries@, map@);
        assert(piece_texts(map@).dom() =~= map@.dom());
    }
    let mut list: Vec<RoutedPiece> = Vec::new();
    let mut k: usize = 0;
    while k < entries.len()
        invariant
            k <= entries@.len(),
            cellmap::lists_map(entries@, map@),
            order == cellmap::entry_places(entries@),
            list@.len() == k,
            forall|i: int|
                0 <= i < k ==> cellmap::place_of((#[trigger] list@[i]).coord) == order[i] && map@.contains_key(order[i])
                    && list@[i].spec_name == map@[order[i]],
        decreases entries.len() - k,
    {
        assert(map@.contains_key(cellmap::place_of(entries@[k as int].0)));
        list.push(RoutedPiece { coord: entries[k].0, spec_name: entries[k].1 });
        k += 1;
    }
    list
}

/// Routes all nets of a construction.
///
/// The nets are routed one after the other. The routing fails where a net leads to or from
/// something that has no place, where two paths meet other than at right angles, or where
/// no connector joins the phases of two neighbours.
pub fn construct_routing_witness(files: &PatternFiles, construction: &CompiledConstruction) -> (result: Result<
    RoutingWitness,
    RoutingError,
>)
    requires
        files.wf(),
        construction.variable_inputs.wf(),
        lanes::board_fits(construction@),
        sources_known(construction@),
    ensures
        is_routing_result(construction@, files, result),
        result matches Ok(witness) ==> extent_fits(witness.bounds),
{
    let ghost c = construction@;
    let (cells, paths): (PlaceMap<RouteDirs>, Vec<Vec<(i32, i32)>>) = match route_nets(construction) {
        Ok(found) => found,
        Err(error) => {
            return Err(error);
        },
    };
    let lanes: Lanes = Lanes::new(construction);
    let mut pieces: PlaceMap<&'static str> = match place_instances(&lanes) {
        Ok(found) => found,
        Err(error) => {
            return Err(error);
        },
    };
    let route_cells: Vec<RoutedCell> = match tile_cells(&cells) {
        Ok(list) => list,
        Err(error) => {
            return Err(error);
        },
    };
    add_tiles(&mut pieces, &route_cells, &cells);
    let wide: Vec<(i32, i32)> = seam_places(&lanes, &cells, RouteDir::E);
    let high: Vec<(i32, i32)> = seam_places(&lanes, &cells, RouteDir::S);
    proof {
        lemma_neighbours_fit(c, &cells, lanes::places(wide@), RouteDir::E);
        lemma_neighbours_fit(c, &cells, lanes::places(high@), RouteDir::S);
    }
    let horizontal: Vec<HorizontalInterface> = match horizontal_interfaces(files, &pieces, &wide) {
        Ok(list) => list,
        Err(error) => {
            return Err(error);
        },
    };
    let vertical: Vec<VerticalInterface> = match vertical_interfaces(&pieces, &high) {
        Ok(list) => list,
        Err(error) => {
            return Err(error);
        },
    };
    let ghost texts = piece_texts(pieces@);
    let ghost across = all_across(files, texts, lanes::places(wide@), wide@.len())->Ok_0;
    let ghost down = all_down(texts, lanes::places(high@), high@.len())->Ok_0;
    let horizontal_families: Vec<HorizontalInterfaceFamily> = count_horizontal_families(&horizontal, Ghost(across));
    let vertical_families: Vec<VerticalInterfaceFamily> = count_vertical_families(&vertical, Ghost(down));
    let net_paths: Vec<NetPathWitness> = finalize_net_paths(construction, &cells, &paths);
    let primitive_usage: StrMap<usize> = count_tiles(&route_cells);
    let entries: Vec<((i32, i32), &'static str)> = pieces.entries();
    let bounds: RouteBounds = match compute_bounds(&entries, Ghost(pieces@)) {
        Some(bounds) => bounds,
        None => {
            proof {
                assert forall|p: Place| !texts.dom().contains(p) by {
                    if texts.dom().contains(p) {
                        assert(pieces@.contains_key(p));
                        let i = choose|i: int|
                            0 <= i < entries@.len() && cellmap::place_of((#[trigger] entries@[i]).0) == p;
                    }
                }
                assert(texts.dom() =~= Set::<Place>::empty());
            }
            return Err(RoutingError::NoPieces);
        },
    };
    proof {
        assert(texts.dom() =~= pieces@.dom());
        assert(pieces@.contains_key(cellmap::place_of(entries@[0].0)));
        assert(!texts.dom().is_empty());
        lemma_pieces_nearby(c, c.instances.len());
        assert forall|p: Place| #[trigger] pieces@.dom().contains(p) implies lanes::nearby(c, p) by {
            assert(texts.contains_key(p));
        }
    }
    Ok(
        RoutingWitness {
            bounds,
            pieces: list_pieces(&entries, Ghost(pieces@)),
            route_cells,
            horizontal_interfaces: horizontal,
            vertical_interfaces: vertical,
            horizontal_families,
            vertical_families,
            net_paths,
            primitive_usage,
        },
    )
}

/// The steps of the paths of the first `k` nets.
pub open spec fn path_length(paths: Seq<NetPathWitness>, k: nat) -> nat
    decreases k,
{
    if k == 0 {
        0
    } else {
        path_length(paths, (k - 1) as nat) + (if paths[k - 1].cells@.len() == 0 {
            0
        } else {
            (paths[k - 1].cells@.len() - 1) as nat
        })
    }
}

/// How often a tile is used.
pub open spec fn use_count(usage: Map<Seq<char>, usize>, name: Seq<char>) -> nat {
    if usage.contains_key(name) {
        usage[name] as nat
    } else {
        0
    }
}

/// The extent of a range.
pub open spec fn extent(low: int, high: int) -> nat {
    if high >= low {
        (high - low + 1) as nat
    } else {
        0
    }
}

/// The uses of tiles, as they are written.
pub open spec fn usage_parts(usage: &StrMap<usize>) -> Seq<Seq<char>> {
    Seq::new(
        usage.key_seq().len(),
        |i: int| usage.key_seq()[i] + " x"@ + text::decimal(usage.value_seq()[i] as nat),
    )
}

impl RoutingWitness {
    /// The sizes of the routing can be computed.
    pub open spec fn measurable(&self) -> bool {
        &&& self.primitive_usage.wf()
        &&& path_length(self.net_paths@, self.net_paths@.len()) <= usize::MAX
        &&& extent_fits(self.bounds)
    }

    /// Whether the lengths of the paths and the extent of the board can be counted.
    pub fn is_measurable(&self) -> (measurable: bool)
        requires
            self.primitive_usage.wf(),
        ensures
            measurable == self.measurable(),
    {
        let width: i64 = self.bounds.max_x as i64 - self.bounds.min_x as i64;
        let height: i64 = self.bounds.max_y as i64 - self.bounds.min_y as i64;
        if width < i32::MIN as i64 || width >= i32::MAX as i64 || height < i32::MIN as i64 || height >= i32::MAX as i64 {
            return false;
        }
        let mut total: usize = 0;
        let mut k: usize = 0;
        while k < self.net_paths.len()
            invariant
                k <= self.net_paths@.len(),
                total == path_length(self.net_paths@, k as nat),
            decreases self.net_paths.len() - k,
        {
            let cells: usize = self.net_paths[k].cells.len();
            proof {
                lemma_path_length_grows(self.net_paths@, (k + 1) as nat, self.net_paths@.len());
            }
            if cells > 0 {
                match total.checked_add(cells - 1) {
                    Some(sum) => {
                        total = sum;
                    },
                    None => {
                        return false;
                    },
                }
            }
            k += 1;
        }
        true
    }

    /// The number of cells of all paths.
    pub fn route_cell_count(&self) -> (n: usize)
        ensures
            n == self.route_cells@.len(),
    {
        self.route_cells.len()
    }

    /// The number of crossings.
    pub fn crossing_count(&self) -> (n: usize)
        requires
            self.primitive_usage.wf(),
        ensures
            n == use_count(self.primitive_usage@, "crossing tile"@),
    {
        match self.primitive_usage.get("crossing tile") {
            Some(count) => *count,
            None => 0,
        }
    }

    /// The number of steps of all paths.
    pub fn total_path_length(&self) -> (n: usize)
        requires
            path_length(self.net_paths@, self.net_paths@.len()) <= usize::MAX,
        ensures
            n == path_length(self.net_paths@, self.net_paths@.len()),
    {
        let mut n: usize = 0;
        let mut k: usize = 0;
        while k < self.net_paths.len()
            invariant
                k <= self.net_paths@.len(),
                path_length(self.net_paths@, self.net_paths@.len()) <= usize::MAX,
                n == path_length(self.net_paths@, k as nat),
            decreases self.net_paths.len() - k,
        {
            proof {
                lemma_path_length_grows(self.net_paths@, (k + 1) as nat, self.net_paths@.len());
            }
            let cells: usize = self.net_paths[k].cells.len();
            if cells > 0 {
                n += cells - 1;
            }
            k += 1;
        }
        n
    }

    /// The first line of the summary.
    pub open spec fn summary_line(&self) -> Seq<char> {
        "routing_witness_valid=true route_paths="@ + text::decimal(self.net_paths@.len()) + " routed_pieces="@
            + text::decimal(self.pieces@.len()) + " route_cells="@ + text::decimal(self.route_cells@.len())
            + " crossings="@ + text::decimal(use_count(self.primitive_usage@, "crossing tile"@))
            + " total_path_length="@ + text::decimal(path_length(self.net_paths@, self.net_paths@.len()))
            + " bounds="@ + text::decimal(extent(self.bounds.min_x as int, self.bounds.max_x as int)) + "x"@
            + text::decimal(extent(self.bounds.min_y as int, self.bounds.max_y as int))
            + " horizontal_interface_families="@ + text::decimal(self.horizontal_families@.len())
            + " vertical_interface_families="@ + text::decimal(self.vertical_families@.len())
    }

    /// The summary.
    pub open spec fn summary(&self) -> Seq<char> {
        self.summary_line() + "\n"@ + "routing_primitive_usage="@ + text::joined(
            usage_parts(&self.primitive_usage),
            ", "@,
        )
    }

    /// The sizes of the routing, and how often each tile is used.
    pub fn render_summary(&self) -> (summary: String)
        requires
            self.measurable(),
        ensures
            summary@ == self.summary(),
    {
        let mut out: String = "routing_witness_valid=true route_paths=".to_owned();
        push_usize(&mut out, self.net_paths.len());
        out.append(" routed_pieces=");
        push_usize(&mut out, self.pieces.len());
        out.append(" route_cells=");
        push_usize(&mut out, self.route_cells.len());
        out.append(" crossings=");
        push_usize(&mut out, self.crossing_count());
        out.append(" total_path_length=");
        push_usize(&mut out, self.total_path_length());
        out.append(" bounds=");
        push_usize(&mut out, self.bounds.width());
        out.append("x");
        push_usize(&mut out, self.bounds.height());
        out.append(" horizontal_interface_families=");
        push_usize(&mut out, self.horizontal_families.len());
        out.append(" vertical_interface_families=");
        push_usize(&mut out, self.vertical_families.len());
        assert(out@ == self.summary_line());
        out.append("\n");
        out.append("routing_primitive_usage=");
        let ghost start = out@;
        let ghost parts = usage_parts(&self.primitive_usage);
        proof {
            self.primitive_usage.lemma_entries();
        }
        let total: usize = self.primitive_usage.len();
        let mut k: usize = 0;
        assert(out@ =~= start + text::joined(parts.take(0), ", "@));
        while k < total
            invariant
                k <= total,
                total == self.primitive_usage.key_seq().len(),
                self.primitive_usage.value_seq().len() == total,
                parts == usage_parts(&self.primitive_usage),
                out@ == start + text::joined(parts.take(k as int), ", "@),
            decreases total - k,
        {
            proof {
                text::lemma_joined_step(parts, ", "@, k as int);
            }
            let ghost before = out@;
            if k > 0 {
                out.append(", ");
            }
            out.append(self.primitive_usage.key_at(k).as_str());
            out.append(" x");
            push_usize(&mut out, *self.primitive_usage.value_at(k));
            assert(out@ =~= start + text::joined(parts.take(k + 1), ", "@));
            k += 1;
        }
        assert(parts.take(k as int) =~= parts);
        assert(out@ =~= self.summary());
        out
    }

    /// The lines of the summary of interface families.
    pub open spec fn family_lines(&self) -> Seq<Seq<char>> {
        seq!["horizontal interface families: "@ + text::decimal(self.horizontal_families@.len())] + Seq::new(
            self.horizontal_families@.len(),
            |i: int|
                "  "@ + self.horizontal_families@[i].left_spec_name@ + " --"@
                    + self.horizontal_families@[i].connector_spec_name@ + "--> "@
                    + self.horizontal_families@[i].right_spec_name@ + " x"@ + text::decimal(
                    self.horizontal_families@[i].count as nat,
                ),
        ) + seq!["vertical interface families: "@ + text::decimal(self.vertical_families@.len())] + Seq::new(
            self.vertical_families@.len(),
            |i: int|
                "  "@ + self.vertical_families@[i].top_spec_name@ + " / "@
                    + self.vertical_families@[i].bottom_spec_name@ + " x"@ + text::decimal(
                    self.vertical_families@[i].count as nat,
                ),
        )
    }

    /// The interface families, with how often they occur.
    pub fn render_interface_family_summary(&self) -> (summary: String)
        ensures
            summary@ == text::joined(self.family_lines(), "\n"@),
    {
        let ghost lines = self.family_lines();
        let mut out: String = "horizontal interface families: ".to_owned();
        push_usize(&mut out, self.horizontal_families.len());
        let h: usize = self.horizontal_families.len();
        let v: usize = self.vertical_families.len();
        proof {
            text::lemma_joined_step(lines, "\n"@, 0);
            assert(lines.take(0) =~= Seq::<Seq<char>>::empty());
            assert(out@ =~= text::joined(lines.take(1), "\n"@));
        }
        let mut k: usize = 0;
        while k < h
            invariant
                k <= h,
                h == self.horizontal_families@.len(),
                lines == self.family_lines(),
                out@ == text::joined(lines.take(k + 1), "\n"@),
            decreases h - k,
        {
            let family: HorizontalInterfaceFamily = self.horizontal_families[k];
            proof {
                text::lemma_joined_step(lines, "\n"@, k + 1);
            }
            out.append("\n");
            let ghost start = out@;
            out.append("  ");
            out.append(family.left_spec_name);
            out.append(" --");
            out.append(family.connector_spec_name);
            out.append("--> ");
            out.append(family.right_spec_name);
            out.append(" x");
            push_usize(&mut out, family.count);
            assert(out@ =~= start + lines[k + 1]);
            k += 1;
        }
        proof {
            text::lemma_joined_step(lines, "\n"@, h + 1);
        }
        out.append("\n");
        let ghost middle = out@;
        out.append("vertical interface families: ");
        push_usize(&mut out, v);
        assert(out@ =~= middle + lines[h + 1]);
        let mut m: usize = 0;
        while m < v
            invariant
                m <= v,
                h == self.horizontal_families@.len(),
                v == self.vertical_families@.len(),
                lines == self.family_lines(),
                out@ == text::joined(lines.take(h + m + 2), "\n"@),
            decreases v - m,
        {
            let family: VerticalInterfaceFamily = self.vertical_families[m];
            proof {
                text::lemma_joined_step(lines, "\n"@, h + m + 2);
            }
            out.append("\n");
            let ghost start = out@;
            out.append("  ");
            out.append(family.top_spec_name);
            out.append(" / ");
            out.append(family.bottom_spec_name);
            out.append(" x");
            push_usize(&mut out, family.count);
            assert(out@ =~= start + lines[h + m + 2]);
            m += 1;
        }
        assert(lines.take(h + v + 2) =~= lines);
        out
    }
}

proof fn lemma_path_length_grows(paths: Seq<NetPathWitness>, j: nat, k: nat)
    requires
        j <= k,
    ensures
        path_length(paths, j) <= path_length(paths, k),
    decreases k,
{
    if j < k {
        lemma_path_length_grows(paths, j, (k - 1) as nat);
    }
}

/// The sources of all nets from outside are variables of the construction.
pub open spec fn sources_listed(c: ConstructionModel) -> bool {
    forall|k: int|
        0 <= k < c.nets.len() ==> (#[trigger] c.nets[k].from matches EndpointModel::External(variable)
            ==> c.variables.contains(variable))
}

/// Whether a construction fits on a board, and its nets have known sources.
pub fn is_routable(construction: &CompiledConstruction) -> (routable: bool)
    requires
        construction.variable_inputs.wf(),
    ensures
        routable == (lanes::board_fits(construction@) && sources_listed(construction@)),
        routable ==> sources_known(construction@),
{
    let ghost c = construction@;
    let top: u128 = 0x7fff_ffff;
    let nets: u128 = if construction.nets.len() == 0 {
        1
    } else {
        construction.nets.len() as u128
    };
    assert(nets == lanes::net_total(c));
    if 600 + nets * 60 > top {
        return false;
    }
    let reach: u128 = 600 + nets * 60;
    let pitch_x: u128 = 240 + nets * 12;
    let pitch_y: u128 = 180 + nets * 12;
    proof {
        construction.variable_inputs.lemma_entries();
    }
    let variables: u128 = construction.variable_inputs.len() as u128;
    assert(0 <= variables * pitch_y <= 0x8000_0000_0000_0000_0000_0000) by (nonlinear_arith)
        requires
            variables <= 0xffff_ffff_ffff_ffff,
            pitch_y <= 0x7fff_ffff,
    ;
    if variables * pitch_y + reach > top {
        return false;
    }
    let mut i: usize = 0;
    while i < construction.instances.len()
        invariant
            i <= construction.instances@.len(),
            c == construction@,
            top == i32::MAX,
            reach == lanes::reach(c),
            reach <= top,
            pitch_x == lanes::pitch_x(c),
            pitch_y == lanes::pitch_y(c),
            pitch_x <= 0x7fff_ffff,
            pitch_y <= 0x7fff_ffff,
            forall|j: int|
                0 <= j < i ==> (#[trigger] c.instances[j]).column * lanes::pitch_x(c) + lanes::reach(c) <= i32::MAX
                    && c.instances[j].row * lanes::pitch_y(c) + lanes::reach(c) <= i32::MAX,
        decreases construction.instances.len() - i,
    {
        let column: u128 = construction.instances[i].column as u128;
        let row: u128 = construction.instances[i].row as u128;
        assert(c.instances[i as int] == construction.instances@[i as int]@);
        assert(0 <= column * pitch_x <= 0x8000_0000_0000_0000_0000_0000) by (nonlinear_arith)
            requires
                column <= 0xffff_ffff_ffff_ffff,
                pitch_x <= 0x7fff_ffff,
        ;
        assert(0 <= row * pitch_y <= 0x8000_0000_0000_0000_0000_0000) by (nonlinear_arith)
            requires
                row <= 0xffff_ffff_ffff_ffff,
                pitch_y <= 0x7fff_ffff,
        ;
        if column * pitch_x + reach > top || row * pitch_y + reach > top {
            assert(!lanes::board_fits(c)) by {
                if lanes::board_fits(c) {
                    assert(c.instances[i as int].column * lanes::pitch_x(c) + lanes::reach(c) <= i32::MAX);
                }
            }
            return false;
        }
        i += 1;
    }
    assert(lanes::board_fits(c));
    let mut k: usize = 0;
    while k < construction.nets.len()
        invariant
            k <= construction.nets@.len(),
            c == construction@,
            construction.variable_inputs.wf(),
            forall|j: int|
                0 <= j < k ==> (#[trigger] c.nets[j].from matches EndpointModel::External(variable)
                    ==> c.variables.contains(variable)),
        decreases construction.nets.len() - k,
    {
        assert(c.nets[k as int] == construction.nets@[k as int]@);
        if let Endpoint::ExternalInput { variable } = &construction.nets[k].from {
            proof {
                construction.variable_inputs.lemma_entries();
            }
            if !construction.variable_inputs.contains_key(variable.as_str()) {
                assert(c.nets[k as int].from == EndpointModel::External(variable@));
                assert(!c.variables.contains(variable@)) by {
                    assert(construction.variable_inputs.key_seq().to_set().contains(variable@) <==> c.variables.contains(
                        variable@,
                    ));
                }
                return false;
            }
            assert(c.variables.contains(variable@)) by {
                assert(construction.variable_inputs.key_seq().to_set().contains(variable@));
            }
        }
        k += 1;
    }
    assert forall|j: int|
        0 <= j < c.nets.len() && routed(c, j as nat) is Ok && lanes::stub_of(c, c.nets[j].to) is Ok implies (
    #[trigger] c.nets[j].from matches EndpointModel::External(variable) ==> c.variables.contains(variable)) by {}
    true
}
/// The path of every net leads, in steps to neighbours, from where the net starts to where
/// it ends.
pub proof fn law_paths_are_walks(c: ConstructionModel, files: &PatternFiles, witness: RoutingWitness, net: int)
    requires
        is_routing_result(c, files, Ok(witness)),
        0 <= net < c.nets.len(),
    ensures
        witness.net_paths@.len() == c.nets.len(),
        lanes::is_walk(lanes::places(witness.net_paths@[net].cells@)),
        lanes::places(witness.net_paths@[net].cells@)[0] == lanes::source_of(c, net as nat)->Ok_0.place,
        lanes::places(witness.net_paths@[net].cells@).last() == lanes::stub_of(c, c.nets[net].to)->Ok_0.place,
{
    let cells = routed(c, c.nets.len())->Ok_0;
    assert(is_path_witness(c, cells, net, witness.net_paths@[net]));
    lanes::lemma_path(
        c,
        net as nat,
        lanes::source_of(c, net as nat)->Ok_0,
        lanes::stub_of(c, c.nets[net].to)->Ok_0,
    );
}

} // verus!
